use vstd::prelude::*;
use crate::color::{palette_of, Color, PALETTE_BYTES};
use crate::error::BraError;
use crate::read_util::{le32, ReadUtil, SliceReader};

verus! {

/// Size of the fixed part of the header: seven 32-bit fields.
pub const HEADER_BYTES: u32 = 28;

/// The most frames a sane file holds.
pub const MAX_FRAMES: u32 = 50;

/// The `k`-th little-endian 32-bit field of the header.
pub open spec fn field(data: Seq<u8>, k: int) -> int {
    le32(data[4 * k], data[4 * k + 1], data[4 * k + 2], data[4 * k + 3])
}

/// The container header.
pub struct Header {
    pub num_frames: u32,
    pub _unknown1: u32,
    pub pal_len: u32,
    pub _frame_size: u32,
    pub _unknown3: u32,
    pub width: u32,
    pub height: u32,
    pub palette: Vec<Color>,
}

impl Header {
    /// What every parsed header satisfies.
    pub open spec fn wf(&self) -> bool {
        &&& self.pal_len == PALETTE_BYTES
        &&& self.palette@.len() == PALETTE_BYTES / 2
        &&& self.num_frames <= MAX_FRAMES
    }

    /// Parses the header at the start of `data`.
    pub fn parse(data: &[u8]) -> (r: Result<Self, BraError>)
        ensures
            data@.len() < HEADER_BYTES ==> r == Err::<Self, BraError>(BraError::MalformedHeader),
            data@.len() >= HEADER_BYTES && data@.len() < HEADER_BYTES + field(data@, 2) ==> r
                == Err::<Self, BraError>(BraError::MalformedHeader),
            data@.len() >= HEADER_BYTES + field(data@, 2) && field(data@, 2) != PALETTE_BYTES
                ==> r == Err::<Self, BraError>(BraError::UnsupportedPaletteFormat),
            data@.len() >= HEADER_BYTES + field(data@, 2) && field(data@, 2) == PALETTE_BYTES
                && field(data@, 0) > MAX_FRAMES ==> r == Err::<Self, BraError>(
                BraError::UnreasonableFrameCount,
            ),
            data@.len() >= HEADER_BYTES + field(data@, 2) && field(data@, 2) == PALETTE_BYTES
                && field(data@, 0) <= MAX_FRAMES ==> r.is_ok() && ({
                let h = r.unwrap();
                &&& h.wf()
                &&& h.num_frames == field(data@, 0)
                &&& h._unknown1 == field(data@, 1)
                &&& h.pal_len == field(data@, 2)
                &&& h._frame_size == field(data@, 3)
                &&& h._unknown3 == field(data@, 4)
                &&& h.width == field(data@, 5)
                &&& h.height == field(data@, 6)
                &&& h.palette@.map_values(|c: Color| c.0@) == palette_of(
                    data@.subrange(HEADER_BYTES as int, HEADER_BYTES + PALETTE_BYTES),
                )
            }),
    {
        if data.len() < 28 {
            return Err(BraError::MalformedHeader);
        }
        let mut reader = SliceReader::new(data);
        let ghost d = data@;
        assert(d.skip(4).skip(4) =~= d.skip(8));
        assert(d.skip(8).skip(4) =~= d.skip(12));
        assert(d.skip(12).skip(4) =~= d.skip(16));
        assert(d.skip(16).skip(4) =~= d.skip(20));
        assert(d.skip(20).skip(4) =~= d.skip(24));
        let num_frames = match reader.read_u32_le() { Some(v) => v, None => { return Err(BraError::MalformedHeader); } };
        let _unknown1 = match reader.read_u32_le() { Some(v) => v, None => { return Err(BraError::MalformedHeader); } };
        let pal_len = match reader.read_u32_le() { Some(v) => v, None => { return Err(BraError::MalformedHeader); } };
        let _frame_size = match reader.read_u32_le() { Some(v) => v, None => { return Err(BraError::MalformedHeader); } };
        let _unknown3 = match reader.read_u32_le() { Some(v) => v, None => { return Err(BraError::MalformedHeader); } };
        let width = match reader.read_u32_le() { Some(v) => v, None => { return Err(BraError::MalformedHeader); } };
        let height = match reader.read_u32_le() { Some(v) => v, None => { return Err(BraError::MalformedHeader); } };
        assert(num_frames == field(d, 0));
        assert(_unknown1 == field(d, 1));
        assert(pal_len == field(d, 2));
        assert(_frame_size == field(d, 3));
        assert(_unknown3 == field(d, 4));
        assert(width == field(d, 5));
        assert(height == field(d, 6));
        if ((data.len() - 28) as u64) < pal_len as u64 {
            return Err(BraError::MalformedHeader);
        }
        let block = vstd::slice::slice_subrange(data, 28, 28 + pal_len as usize);
        let palette = match Color::parse_palette(block, pal_len) {
            Ok(p) => p,
            Err(e) => {
                return Err(e);
            },
        };
        assert(palette@.map_values(|c: Color| c.0@) == palette_of(
            data@.subrange(HEADER_BYTES as int, HEADER_BYTES + PALETTE_BYTES)));
        assert(palette@.len() == PALETTE_BYTES / 2);
        if num_frames > MAX_FRAMES {
            return Err(BraError::UnreasonableFrameCount);
        }
        Ok(Header { num_frames, _unknown1, pal_len, _frame_size, _unknown3, width, height, palette })
    }

    /// Width and height of every frame, in pixels.
    pub fn dimensions(&self) -> (r: (u32, u32))
        ensures
            r == (self.width, self.height),
    {
        (self.width, self.height)
    }

    /// The decoded palette.
    pub fn palette(&self) -> (r: &[Color])
        ensures
            r@ == self.palette@,
    {
        self.palette.as_slice()
    }

    /// Where the frame-descriptor table starts: right after the header and
    /// the palette block.
    pub fn frame_info_addr(&self) -> (r: usize)
        requires
            HEADER_BYTES + self.pal_len <= usize::MAX,
        ensures
            r == HEADER_BYTES + self.pal_len,
    {
        28 + self.pal_len as usize
    }
}

} // verus!
