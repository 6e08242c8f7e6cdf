use vstd::prelude::*;
use crate::codec::{decompress, decompressed};
use crate::color::Color;
use crate::error::BraError;
use crate::read_util::{le32, ReadUtil, SliceReader};

verus! {

/// Side of a square tile, in pixels.
pub const TILE_SIDE: u64 = 16;

/// Pixels in one tile.
pub const TILE_PIXELS: u64 = 256;

/// Size of one frame-descriptor record.
pub const FRAME_RECORD_BYTES: u32 = 12;

/// Where one frame's data lies in the container.
#[derive(Debug, Clone, Copy)]
pub struct Frame {
    /// Start of the tile table, from the start of the container.
    pub offset: u32,
    /// Length of the tile table in bytes.
    pub table_length: u32,
    /// Length of the compressed payload that follows the tile table.
    pub length: u32,
}

/// The grid cell, in tiles, that one slice of a frame's pixel stream fills.
#[derive(Debug, Clone, Copy)]
pub struct TileInfo {
    pub x: usize,
    pub y: usize,
}

/// The RGB bytes of each palette entry.
pub open spec fn colors(palette: Seq<Color>) -> Seq<Seq<u8>> {
    palette.map_values(|c: Color| c.0@)
}

/// The coordinates of each tile.
pub open spec fn coords(tiles: Seq<TileInfo>) -> Seq<(int, int)> {
    tiles.map_values(|t: TileInfo| (t.x as int, t.y as int))
}

/// The `k`-th record of a frame-descriptor table.
pub open spec fn frame_record(data: Seq<u8>, k: int) -> (int, int, int) {
    let b = 12 * k;
    (
        le32(data[b], data[b + 1], data[b + 2], data[b + 3]),
        le32(data[b + 4], data[b + 5], data[b + 6], data[b + 7]),
        le32(data[b + 8], data[b + 9], data[b + 10], data[b + 11]),
    )
}

/// The tile coordinates of a tile table with `count` entries.
pub open spec fn tiles_of(table: Seq<u8>, count: int) -> Seq<(int, int)> {
    Seq::new(count as nat, |i: int| (table[2 * i] as int, table[2 * i + 1] as int))
}

/// The alpha that the top three bits of a pixel byte give.
pub open spec fn alpha_of(byte: u8) -> u8 {
    (((byte & 0xE0) >> 5u8) * 36) as u8
}

/// The palette index that the low five bits of a pixel byte give.
pub open spec fn index_of(byte: u8) -> int {
    (byte & 0x1F) as int
}

/// Byte offset in the raster of pixel `j` of the pixel stream: the tile
/// column coordinate plus the local outer index picks the row, the tile row
/// coordinate plus the local inner index the column.
pub open spec fn pixel_offset(tiles: Seq<(int, int)>, width: int, j: int) -> int {
    let t = tiles[j / 256];
    let x = (j % 256) / 16;
    let y = j % 16;
    ((t.0 * 16 + x) * width + (t.1 * 16 + y)) * 4
}

/// Writes pixel `j` of the stream into `buf`.
pub open spec fn paint_pixel(
    buf: Seq<u8>,
    tiles: Seq<(int, int)>,
    stream: Seq<u8>,
    width: int,
    palette: Seq<Seq<u8>>,
    j: int,
) -> Result<Seq<u8>, BraError> {
    if j >= stream.len() {
        Err(BraError::TruncatedDecompressedStream)
    } else if index_of(stream[j]) >= palette.len() {
        Err(BraError::PaletteIndexOutOfRange)
    } else {
        let pos = pixel_offset(tiles, width, j);
        let c = palette[index_of(stream[j])];
        if pos < 0 || pos + 4 > buf.len() {
            Err(BraError::TileOutOfRaster)
        } else {
            Ok(
                buf.update(pos, c[0]).update(pos + 1, c[1]).update(pos + 2, c[2]).update(
                    pos + 3,
                    alpha_of(stream[j]),
                ),
            )
        }
    }
}

/// The raster after the first `k` pixels of the stream are written into a
/// zeroed buffer of `size` bytes.
pub open spec fn paint(
    tiles: Seq<(int, int)>,
    stream: Seq<u8>,
    width: int,
    size: int,
    palette: Seq<Seq<u8>>,
    k: int,
) -> Result<Seq<u8>, BraError>
    decreases k,
{
    if k <= 0 {
        Ok(Seq::new(size as nat, |i: int| 0u8))
    } else {
        match paint(tiles, stream, width, size, palette, k - 1) {
            Err(e) => Err(e),
            Ok(buf) => paint_pixel(buf, tiles, stream, width, palette, k - 1),
        }
    }
}

/// The RGBA raster that a frame decodes to.
pub open spec fn frame_raster(
    offset: int,
    table_length: int,
    length: int,
    data: Seq<u8>,
    width: int,
    height: int,
    palette: Seq<Seq<u8>>,
) -> Result<Seq<u8>, BraError> {
    let count = table_length / 2;
    let start = offset + table_length;
    if offset > data.len() {
        Err(BraError::FrameOutOfBounds)
    } else if offset + 2 * count > data.len() {
        Err(BraError::TruncatedTileTable)
    } else if start + length > data.len() {
        Err(BraError::FrameOutOfBounds)
    } else {
        match decompressed(data.subrange(start, start + length)) {
            Err(e) => Err(e),
            Ok(stream) => paint(
                tiles_of(data.skip(offset), count),
                stream,
                width,
                width * height * 4,
                palette,
                256 * count,
            ),
        }
    }
}

/// Once writing the raster has failed, writing more pixels fails the same way.
proof fn lemma_paint_stays_failed(
    tiles: Seq<(int, int)>,
    stream: Seq<u8>,
    width: int,
    size: int,
    palette: Seq<Seq<u8>>,
    k: int,
    m: int,
)
    requires
        0 <= k <= m,
        paint(tiles, stream, width, size, palette, k).is_err(),
    ensures
        paint(tiles, stream, width, size, palette, m) == paint(
            tiles,
            stream,
            width,
            size,
            palette,
            k,
        ),
    decreases m - k,
{
    if m > k {
        lemma_paint_stays_failed(tiles, stream, width, size, palette, k, m - 1);
    }
}

/// Writes pixel `j` of the pixel stream into the raster.
fn write_pixel(
    decoded: &mut Vec<u8>,
    tiles_info: &Vec<TileInfo>,
    stream: &Vec<u8>,
    width: u32,
    palette: &[Color],
    j: u64,
) -> (r: Result<(), BraError>)
    requires
        j < 256 * tiles_info@.len(),
        tiles_info@.len() <= 0x8000_0000,
        forall|k: int|
            0 <= k < tiles_info@.len() ==> (#[trigger] tiles_info@[k]).x <= 255
                && tiles_info@[k].y <= 255,
    ensures
        match paint_pixel(
            old(decoded)@,
            coords(tiles_info@),
            stream@,
            width as int,
            colors(palette@),
            j as int,
        ) {
            Ok(buf) => r.is_ok() && final(decoded)@ == buf,
            Err(e) => r == Err::<(), BraError>(e),
        },
{
    let ghost tiles = coords(tiles_info@);
    let ghost pal = colors(palette@);
    assert(pal.len() == palette@.len());
    if j >= stream.len() as u64 {
        return Err(BraError::TruncatedDecompressedStream);
    }
    let byte = stream[j as usize];
    let index = (byte & 0x1F) as usize;
    if index >= palette.len() {
        return Err(BraError::PaletteIndexOutOfRange);
    }
    assert((byte & 0xE0) >> 5u8 <= 7) by (bit_vector);
    let alpha = ((byte & 0xE0) >> 5) * 36;
    assert(j / 256 < tiles_info@.len()) by (nonlinear_arith)
        requires
            j < 256 * tiles_info@.len(),
    ;
    let tile = tiles_info[(j / TILE_PIXELS) as usize];
    let x = (j % TILE_PIXELS) / TILE_SIDE;
    let y = j % TILE_SIDE;
    assert(tiles[j as int / 256] == (tile.x as int, tile.y as int));
    let pos_x = tile.x as u64 * TILE_SIDE + x;
    let pos_y = tile.y as u64 * TILE_SIDE + y;
    assert(pos_x * (width as u64) <= 4095 * 0xFFFF_FFFFu64) by (nonlinear_arith)
        requires
            pos_x <= 4095,
            width <= 0xFFFF_FFFFu32,
    ;
    let pos = (pos_x * width as u64 + pos_y) * 4;
    if pos + 4 > decoded.len() as u64 {
        return Err(BraError::TileOutOfRaster);
    }
    let color = palette[index].bytes();
    let p = pos as usize;
    decoded.set(p, color[0]);
    decoded.set(p + 1, color[1]);
    decoded.set(p + 2, color[2]);
    decoded.set(p + 3, alpha);
    Ok(())
}

proof fn lemma_paint_length(
    tiles: Seq<(int, int)>,
    stream: Seq<u8>,
    width: int,
    size: int,
    palette: Seq<Seq<u8>>,
    k: int,
)
    requires
        size >= 0,
    ensures
        paint(tiles, stream, width, size, palette, k) matches Ok(buf) ==> buf.len() == size,
    decreases k,
{
    if k > 0 {
        lemma_paint_length(tiles, stream, width, size, palette, k - 1);
        if let Ok(prev) = paint(tiles, stream, width, size, palette, k - 1) {
            let j = k - 1;
            if j < stream.len() && index_of(stream[j]) < palette.len() {
                let pos = pixel_offset(tiles, width, j);
                let c = palette[index_of(stream[j])];
                if 0 <= pos && pos + 4 <= prev.len() {
                    let b = prev.update(pos, c[0]).update(pos + 1, c[1]).update(pos + 2, c[2]).update(
                        pos + 3,
                        alpha_of(stream[j]),
                    );
                    assert(b.len() == prev.len());
                }
            }
        }
    } else {
        assert(Seq::new(size as nat, |i: int| 0u8).len() == size);
    }
}

/// A decoded frame is always `width * height` RGBA pixels, whatever its
/// tiles and its compressed content.
pub proof fn lemma_raster_length(
    offset: int,
    table_length: int,
    length: int,
    data: Seq<u8>,
    width: int,
    height: int,
    palette: Seq<Seq<u8>>,
)
    requires
        width >= 0,
        height >= 0,
    ensures
        frame_raster(offset, table_length, length, data, width, height, palette) matches Ok(buf)
            ==> buf.len() == width * height * 4,
{
    let count = table_length / 2;
    let start = offset + table_length;
    if offset <= data.len() && offset + 2 * count <= data.len() && start + length <= data.len() {
        if let Ok(stream) = decompressed(data.subrange(start, start + length)) {
            assert(width * height * 4 >= 0) by (nonlinear_arith)
                requires
                    width >= 0,
                    height >= 0,
            ;
            lemma_paint_length(
                tiles_of(data.skip(offset), count),
                stream,
                width,
                width * height * 4,
                palette,
                256 * count,
            );
        }
    }
}

impl Frame {
    /// Reads `frame_count` descriptor records from the start of `data`.
    pub fn parse_frames(data: &[u8], frame_count: u32) -> (r: Result<Vec<Self>, BraError>)
        ensures
            data@.len() < 12 * frame_count ==> r == Err::<Vec<Self>, BraError>(
                BraError::TruncatedFrameTable,
            ),
            data@.len() >= 12 * frame_count ==> r.is_ok() && r.unwrap()@.len() == frame_count
                && forall|i: int|
                0 <= i < frame_count ==> {
                    let f = #[trigger] r.unwrap()@[i];
                    frame_record(data@, i) == (f.offset as int, f.table_length as int, f.length as int)
                },
    {
        let mut frames: Vec<Frame> = Vec::new();
        let mut reader = SliceReader::new(data);
        let mut i: u32 = 0;
        while i < frame_count
            invariant
                i <= frame_count,
                data@.len() >= 12 * i,
                reader.remaining() == data@.skip(12 * i),
                frames@.len() == i,
                forall|k: int|
                    0 <= k < i ==> {
                        let f = #[trigger] frames@[k];
                        frame_record(data@, k) == (f.offset as int, f.table_length as int, f.length as int)
                    },
            decreases frame_count - i,
        {
            proof {
                let d = data@;
                let b = 12 * i as int;
                if d.len() >= b + 12 {
                    assert(d.skip(b).skip(4) =~= d.skip(b + 4));
                    assert(d.skip(b + 4).skip(4) =~= d.skip(b + 8));
                    assert(d.skip(b + 8).skip(4) =~= d.skip(b + 12));
                }
            }
            let offset = match reader.read_u32_le() {
                Some(v) => v,
                None => {
                    return Err(BraError::TruncatedFrameTable);
                },
            };
            let table_length = match reader.read_u32_le() {
                Some(v) => v,
                None => {
                    return Err(BraError::TruncatedFrameTable);
                },
            };
            let length = match reader.read_u32_le() {
                Some(v) => v,
                None => {
                    return Err(BraError::TruncatedFrameTable);
                },
            };
            frames.push(Frame { offset, table_length, length });
            i = i + 1;
        }
        Ok(frames)
    }

    /// Decodes this frame of the container `data` into an RGBA raster of
    /// `width * height` pixels.
    pub fn decode(&self, data: &[u8], width: u32, height: u32, palette: &[Color]) -> (r: Result<
        Vec<u8>,
        BraError,
    >)
        requires
            width as int * height as int * 4 <= usize::MAX,
        ensures
            match frame_raster(
                self.offset as int,
                self.table_length as int,
                self.length as int,
                data@,
                width as int,
                height as int,
                colors(palette@),
            ) {
                Ok(raster) => r.is_ok() && r.unwrap()@ == raster,
                Err(e) => r == Err::<Vec<u8>, BraError>(e),
            },
            r.is_ok() ==> r.unwrap()@.len() == width as int * height as int * 4,
    {
        let ghost pal = colors(palette@);
        let size = width as usize * height as usize * 4;
        let mut decoded: Vec<u8> = Vec::new();
        let mut z: usize = 0;
        while z < size
            invariant
                z <= size,
                decoded@ == Seq::new(z as nat, |i: int| 0u8),
            decreases size - z,
        {
            decoded.push(0);
            z = z + 1;
            assert(decoded@ =~= Seq::new(z as nat, |i: int| 0u8));
        }
        let offset = self.offset as usize;
        if offset > data.len() {
            return Err(BraError::FrameOutOfBounds);
        }
        let table = vstd::slice::slice_subrange(data, offset, data.len());
        assert(table@ =~= data@.skip(offset as int));
        let tiles_info = match Frame::parse_tile_info(table, self.table_length) {
            Ok(t) => t,
            Err(e) => {
                return Err(e);
            },
        };
        let start = self.offset as u64 + self.table_length as u64;
        let end = start + self.length as u64;
        if end > data.len() as u64 {
            return Err(BraError::FrameOutOfBounds);
        }
        let compressed = vstd::slice::slice_subrange(data, start as usize, end as usize);
        let decompressed = match decompress(compressed) {
            Ok(d) => d,
            Err(e) => {
                return Err(e);
            },
        };
        let ghost tiles = tiles_of(data@.skip(offset as int), (self.table_length / 2) as int);
        assert(pal.len() == palette@.len());
        let ghost goal = frame_raster(
            self.offset as int,
            self.table_length as int,
            self.length as int,
            data@,
            width as int,
            height as int,
            pal,
        );
        assert(coords(tiles_info@).len() == tiles_info@.len());
        assert(tiles_info@.len() <= 0x8000_0000);
        let total = tiles_info.len() as u64 * TILE_PIXELS;
        assert(tiles_info@.len() == tiles.len());
        assert forall|k: int| 0 <= k < tiles_info@.len() implies (#[trigger] tiles_info@[k]).x <= 255
            && tiles_info@[k].y <= 255 by {
            let table = data@.skip(offset as int);
            assert(coords(tiles_info@)[k] == tiles[k]);
            assert(tiles[k] == (table[2 * k] as int, table[2 * k + 1] as int));
        }
        assert(goal == paint(tiles, decompressed@, width as int, size as int, pal, total as int));
        let mut j: u64 = 0;
        while j < total
            invariant
                j <= total,
                total == 256 * tiles.len(),
                size == width as int * height as int * 4,
                decoded@.len() == size,
                coords(tiles_info@) == tiles,
                tiles_info@.len() == tiles.len(),
                tiles_info@.len() <= 0x8000_0000,
                forall|k: int|
                    0 <= k < tiles_info@.len() ==> (#[trigger] tiles_info@[k]).x <= 255
                        && tiles_info@[k].y <= 255,
                pal == colors(palette@),
                goal == paint(tiles, decompressed@, width as int, size as int, pal, total as int),
                goal == frame_raster(
                    self.offset as int,
                    self.table_length as int,
                    self.length as int,
                    data@,
                    width as int,
                    height as int,
                    colors(palette@),
                ),
                paint(tiles, decompressed@, width as int, size as int, pal, j as int) == Ok::<
                    Seq<u8>,
                    BraError,
                >(decoded@),
            decreases total - j,
        {
            match write_pixel(&mut decoded, &tiles_info, &decompressed, width, palette, j) {
                Err(e) => {
                    proof {
                        lemma_paint_stays_failed(
                            tiles,
                            decompressed@,
                            width as int,
                            size as int,
                            pal,
                            j + 1,
                            total as int,
                        );
                    }
                    return Err(e);
                },
                Ok(()) => {
                    j = j + 1;
                },
            }
        }
        Ok(decoded)
    }

    /// Reads `table_len / 2` tile coordinates from the start of `data`.
    pub fn parse_tile_info(data: &[u8], table_len: u32) -> (r: Result<Vec<TileInfo>, BraError>)
        ensures
            data@.len() < 2 * (table_len / 2) ==> r == Err::<Vec<TileInfo>, BraError>(
                BraError::TruncatedTileTable,
            ),
            data@.len() >= 2 * (table_len / 2) ==> r.is_ok() && coords(r.unwrap()@) == tiles_of(data@, (table_len / 2) as int),
    {
        let tile_count = table_len / 2;
        let mut tiles_info: Vec<TileInfo> = Vec::new();
        let mut reader = SliceReader::new(data);
        let mut i: u32 = 0;
        while i < tile_count
            invariant
                tile_count == table_len / 2,
                i <= tile_count,
                data@.len() >= 2 * i,
                reader.remaining() == data@.skip(2 * i),
                tiles_info@.len() == i,
                forall|k: int|
                    0 <= k < i ==> (#[trigger] tiles_info@[k]).x == data@[2 * k] && tiles_info@[k].y
                        == data@[2 * k + 1],
            decreases tile_count - i,
        {
            proof {
                let d = data@;
                let b = 2 * i as int;
                if d.len() >= b + 2 {
                    assert(d.skip(b).skip(1) =~= d.skip(b + 1));
                    assert(d.skip(b + 1).skip(1) =~= d.skip(b + 2));
                }
            }
            let x = match reader.read_u8() {
                Some(v) => v as usize,
                None => {
                    return Err(BraError::TruncatedTileTable);
                },
            };
            let y = match reader.read_u8() {
                Some(v) => v as usize,
                None => {
                    return Err(BraError::TruncatedTileTable);
                },
            };
            tiles_info.push(TileInfo { x, y });
            i = i + 1;
        }
        assert(coords(tiles_info@) =~= tiles_of(
            data@,
            (table_len / 2) as int,
        ));
        Ok(tiles_info)
    }
}

} // verus!
