use vstd::prelude::*;
use crate::bra::Header;
use crate::color::Color;
use crate::error::BraError;
use crate::frame::{colors, frame_raster, Frame};
use webp_animation::{Encoder, WebPData};

verus! {

/// webp_animation's animation encoder, carried through unopened.
#[verifier::external_type_specification]
#[verifier::external_body]
pub struct ExEncoder(webp_animation::Encoder);

/// The encoded bytes that webp_animation hands back, carried through unopened.
#[verifier::external_type_specification]
#[verifier::external_body]
pub struct ExWebPData(webp_animation::WebPData);

/// webp_animation's error, carried through unopened.
#[verifier::external_type_specification]
#[verifier::external_body]
pub struct ExWebpError(webp_animation::Error);

/// Why turning a container into an animation failed.
#[derive(Debug)]
pub enum EncodeError {
    /// A frame could not be decoded.
    Decode(BraError),
    /// The animation encoder refused its input.
    Encoder(webp_animation::Error),
    /// The target canvas is smaller than the frame.
    CanvasTooSmall,
}

/// Whether webp_animation opens an encoder for a `width * height` canvas.
pub uninterp spec fn encoder_opens(width: u32, height: u32) -> bool;

/// Whether libwebp, through webp_animation, takes `image` at `timestamp`
/// into an encoder for a `width * height` canvas that has taken `added`.
pub uninterp spec fn frame_taken(
    width: u32,
    height: u32,
    added: Seq<(Seq<u8>, i32)>,
    image: Seq<u8>,
    timestamp: i32,
) -> bool;

/// Whether libwebp, through webp_animation, assembles the frames `added` on
/// a `width * height` canvas into one animation ending at `end`.
pub uninterp spec fn anim_assembles(width: u32, height: u32, added: Seq<(Seq<u8>, i32)>, end: i32) -> bool;

/// The timestamp of the last frame taken, or -1 before the first.
pub open spec fn last_timestamp(added: Seq<(Seq<u8>, i32)>) -> int {
    if added.len() == 0 {
        -1
    } else {
        added.last().1 as int
    }
}

/// An animation encoder with its canvas size and the frames it has taken,
/// each with its timestamp.
pub struct AnimEncoder {
    pub encoder: Encoder,
    pub width: u32,
    pub height: u32,
    pub added: Ghost<Seq<(Seq<u8>, i32)>>,
}

/// Relies on webp_animation::Encoder::new: it refuses a zero width or
/// height first; otherwise libwebp decides from the size alone.
#[verifier::external_body]
fn open_encoder(dimensions: (u32, u32)) -> (r: Result<Encoder, webp_animation::Error>)
    ensures
        r.is_ok() == encoder_opens(dimensions.0, dimensions.1),
        dimensions.0 == 0 || dimensions.1 == 0 ==> r.is_err(),
{
    Encoder::new(dimensions)
}

/// Relies on webp_animation::Encoder::add_frame: it refuses a timestamp not
/// above the last one taken (-1 before any) and a buffer other than
/// `width * height * 4` bytes; otherwise libwebp decides. It computes the
/// row stride `width * 4` as an i32.
#[verifier::external_body]
fn add_frame(enc: &mut AnimEncoder, image: &[u8], timestamp_ms: i32) -> (r: Result<
    (),
    webp_animation::Error,
>)
    requires
        old(enc).width * 4 <= i32::MAX,
        old(enc).width * old(enc).height * 4 <= usize::MAX,
    ensures
        final(enc).width == old(enc).width,
        final(enc).height == old(enc).height,
        r.is_ok() == frame_taken(
            old(enc).width,
            old(enc).height,
            old(enc).added@,
            image@,
            timestamp_ms,
        ),
        r.is_ok() ==> final(enc).added@ == old(enc).added@.push((image@, timestamp_ms)),
        r.is_err() ==> final(enc).added@ == old(enc).added@,
        timestamp_ms <= last_timestamp(old(enc).added@) ==> r.is_err(),
        image@.len() != old(enc).width * old(enc).height * 4 ==> r.is_err(),
{
    enc.encoder.add_frame(image, timestamp_ms)
}

/// Relies on webp_animation::Encoder::finalize: it refuses an encoder that
/// took no frame and an end before the last timestamp; otherwise libwebp
/// decides.
#[verifier::external_body]
fn finalize(enc: AnimEncoder, end: i32) -> (r: Result<WebPData, webp_animation::Error>)
    ensures
        r.is_ok() == anim_assembles(enc.width, enc.height, enc.added@, end),
        enc.added@.len() == 0 ==> r.is_err(),
        end < last_timestamp(enc.added@) ==> r.is_err(),
{
    enc.encoder.finalize(end)
}

impl AnimEncoder {
    /// Opens an encoder for a `width * height` canvas.
    pub fn new(width: u32, height: u32) -> (r: Result<AnimEncoder, webp_animation::Error>)
        ensures
            r.is_ok() == encoder_opens(width, height),
            width == 0 || height == 0 ==> r.is_err(),
            r.is_ok() ==> r.unwrap().width == width && r.unwrap().height == height
                && r.unwrap().added@ == Seq::<(Seq<u8>, i32)>::empty(),
    {
        match open_encoder((width, height)) {
            Ok(encoder) => Ok(AnimEncoder { encoder, width, height, added: Ghost(Seq::empty()) }),
            Err(e) => Err(e),
        }
    }
}

/// The raster that frame `i` of `frames` decodes to.
pub open spec fn raster_of(frames: Seq<Frame>, i: int, data: Seq<u8>, info: Header) -> Result<
    Seq<u8>,
    BraError,
> {
    frame_raster(
        frames[i].offset as int,
        frames[i].table_length as int,
        frames[i].length as int,
        data,
        info.width as int,
        info.height as int,
        colors(info.palette@),
    )
}

/// The frames an encoder has taken after the first `k` frames were decoded
/// and handed to it in order, frame `i` at `i * frame_duration`; or the
/// decode error that stopped it (`Some`), or `None` where the encoder refused.
pub open spec fn anim_progress(
    frames: Seq<Frame>,
    data: Seq<u8>,
    info: Header,
    frame_duration: i32,
    k: int,
) -> Result<Seq<(Seq<u8>, i32)>, Option<BraError>>
    decreases k,
{
    if k <= 0 {
        if encoder_opens(info.width, info.height) {
            Ok(Seq::empty())
        } else {
            Err(None)
        }
    } else {
        match anim_progress(frames, data, info, frame_duration, k - 1) {
            Err(x) => Err(x),
            Ok(added) => match raster_of(frames, k - 1, data, info) {
                Err(e) => Err(Some(e)),
                Ok(image) => {
                    let t = ((k - 1) * frame_duration) as i32;
                    if frame_taken(info.width, info.height, added, image, t) {
                        Ok(added.push((image, t)))
                    } else {
                        Err(None)
                    }
                },
            },
        }
    }
}

proof fn lemma_progress_stays_failed(
    frames: Seq<Frame>,
    data: Seq<u8>,
    info: Header,
    frame_duration: i32,
    k: int,
    m: int,
)
    requires
        0 <= k <= m,
        anim_progress(frames, data, info, frame_duration, k).is_err(),
    ensures
        anim_progress(frames, data, info, frame_duration, m) == anim_progress(
            frames,
            data,
            info,
            frame_duration,
            k,
        ),
    decreases m - k,
{
    if m > k {
        lemma_progress_stays_failed(frames, data, info, frame_duration, k, m - 1);
    }
}

/// When frame `i` of an animation with frames of `frame_duration`
/// milliseconds is first shown.
pub fn frame_timestamp(i: usize, frame_duration: i32) -> (r: i32)
    requires
        i <= i32::MAX,
        i32::MIN <= i * frame_duration <= i32::MAX,
    ensures
        r == i * frame_duration,
{
    (i as i32) * frame_duration
}

/// Byte `i` of an RGBA image of `width * height` pixels placed on a zeroed
/// canvas of `nwidth * nheight` pixels, centred both ways.
pub open spec fn canvas_byte(
    image: Seq<u8>,
    width: int,
    height: int,
    nwidth: int,
    nheight: int,
    i: int,
) -> u8 {
    let p = i / 4;
    let row = p / nwidth;
    let col = p % nwidth;
    let top = (nheight - height) / 2;
    let left = (nwidth - width) / 2;
    if top <= row && row < top + height && left <= col && col < left + width {
        image[((row - top) * width + (col - left)) * 4 + i % 4]
    } else {
        0
    }
}

/// Places an RGBA image of `width * height` pixels in the middle of a larger
/// transparent canvas.
pub fn enlarge_canvas(image: Vec<u8>, width: usize, height: usize, nwidth: usize, nheight: usize) -> (r:
    Result<Vec<u8>, EncodeError>)
    requires
        image@.len() == width * height * 4,
        nwidth * nheight * 4 <= usize::MAX,
    ensures
        nwidth < width || height > nheight ==> r.is_err(),
        !(nwidth < width || height > nheight) ==> r.is_ok() && r.unwrap()@ == Seq::new(
            (nwidth * nheight * 4) as nat,
            |i: int| canvas_byte(image@, width as int, height as int, nwidth as int, nheight as int, i),
        ),
{
    if nwidth < width || height > nheight {
        return Err(EncodeError::CanvasTooSmall);
    }
    let size = nwidth * nheight * 4;
    let image_len = image.len();
    let left_offset = (nwidth - width) / 2;
    let top_offset = (nheight - height) / 2;
    let mut resized: Vec<u8> = Vec::new();
    let mut i: usize = 0;
    while i < size
        invariant
            size == nwidth * nheight * 4,
            i <= size,
            image@.len() == width * height * 4,
            image_len == image@.len(),
            left_offset == (nwidth - width) / 2,
            top_offset == (nheight - height) / 2,
            width <= nwidth,
            height <= nheight,
            resized@ == Seq::new(
                i as nat,
                |k: int| canvas_byte(image@, width as int, height as int, nwidth as int, nheight as int, k),
            ),
        decreases size - i,
    {
        let p = i / 4;
        let row = p / nwidth;
        let col = p % nwidth;
        let b: u8 = if top_offset <= row && row - top_offset < height && left_offset <= col && col
            < left_offset + width {
            let y = row - top_offset;
            let x = col - left_offset;
            proof {
                assert(row < nheight) by (nonlinear_arith)
                    requires
                        i < nwidth * nheight * 4,
                        p == i / 4,
                        row == p / nwidth,
                        nwidth > 0;
                assert(y * width + x < width * height && (y * width + x) * 4 + i % 4 < width
                    * height * 4) by (nonlinear_arith)
                    requires
                        y < height,
                        x < width,
                        i % 4 < 4;
            }
            image[(y * width + x) * 4 + i % 4]
        } else {
            0
        };
        resized.push(b);
        i = i + 1;
        assert(resized@ =~= Seq::new(
            i as nat,
            |k: int| canvas_byte(image@, width as int, height as int, nwidth as int, nheight as int, k),
        ));
    }
    Ok(resized)
}

/// Decodes every frame of the container `data` and encodes them in order as
/// one animation, frame `i` shown from `i * frame_duration` milliseconds on
/// and the last lasting until `frames.len() * frame_duration`.
pub fn encode_anim(data: &[u8], frames: Vec<Frame>, frame_duration: i32, info: Header) -> (r:
    Result<WebPData, EncodeError>)
    requires
        info.width as int * info.height as int * 4 <= usize::MAX,
        info.width as int * 4 <= i32::MAX,
        frames@.len() <= i32::MAX,
        i32::MIN <= frames@.len() * frame_duration <= i32::MAX,
    ensures
        info.width == 0 || info.height == 0 ==> r.is_err(),
        match anim_progress(frames@, data@, info, frame_duration, frames@.len() as int) {
            Err(Some(e)) => r matches Err(EncodeError::Decode(x)) && x == e,
            Err(None) => r matches Err(EncodeError::Encoder(_)),
            Ok(added) => r.is_ok() == anim_assembles(
                info.width,
                info.height,
                added,
                (frames@.len() * frame_duration) as i32,
            ) && (r.is_err() ==> r matches Err(EncodeError::Encoder(_))),
        },
{
    let mut encoder = match AnimEncoder::new(info.width, info.height) {
        Ok(e) => e,
        Err(e) => {
            proof {
                lemma_progress_stays_failed(frames@, data@, info, frame_duration, 0, frames@.len() as int);
            }
            return Err(EncodeError::Encoder(e));
        },
    };
    let palette = info.palette();
    let n = frames.len();
    let mut i: usize = 0;
    while i < n
        invariant
            n == frames@.len(),
            n <= i32::MAX,
            i <= n,
            palette@ == info.palette@,
            info.width as int * info.height as int * 4 <= usize::MAX,
            info.width as int * 4 <= i32::MAX,
            i32::MIN <= n * frame_duration <= i32::MAX,
            encoder.width == info.width,
            encoder.height == info.height,
            anim_progress(frames@, data@, info, frame_duration, i as int) == Ok::<
                Seq<(Seq<u8>, i32)>,
                Option<BraError>,
            >(encoder.added@),
        decreases n - i,
    {
        let image = match frames[i].decode(data, info.width, info.height, palette) {
            Ok(image) => image,
            Err(e) => {
                proof {
                    lemma_progress_stays_failed(frames@, data@, info, frame_duration, i + 1, n as int);
                }
                return Err(EncodeError::Decode(e));
            },
        };
        assert(i32::MIN <= i * frame_duration <= i32::MAX) by (nonlinear_arith)
            requires
                i < n,
                i32::MIN <= n * frame_duration <= i32::MAX,
        ;
        let t = frame_timestamp(i, frame_duration);
        if let Err(e) = add_frame(&mut encoder, image.as_slice(), t) {
            proof {
                lemma_progress_stays_failed(frames@, data@, info, frame_duration, i + 1, n as int);
            }
            return Err(EncodeError::Encoder(e));
        }
        i = i + 1;
    }
    match finalize(encoder, frame_timestamp(n, frame_duration)) {
        Ok(webp) => Ok(webp),
        Err(e) => Err(EncodeError::Encoder(e)),
    }
}

} // verus!
