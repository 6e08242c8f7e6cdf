use bra2webp::bra::Header;
use bra2webp::color::Color;
use bra2webp::decompress;
use bra2webp::error::BraError;
use bra2webp::frame::{Frame, TileInfo};
use bra2webp::read_util::{ReadUtil, SliceReader};

fn le32(v: u32) -> [u8; 4] {
    v.to_le_bytes()
}

fn header_bytes(frames: u32, pal_len: u32, width: u32, height: u32, palette: &[u8]) -> Vec<u8> {
    let mut out = Vec::new();
    for v in [frames, 0, pal_len, 0, 0, width, height] {
        out.extend_from_slice(&le32(v));
    }
    out.extend_from_slice(palette);
    out
}

/// A stream of literals: a method-select byte `first` with four literal
/// flags, then groups of eight; a last short group ends in a terminator.
fn literal_stream(first: u8, data: &[u8]) -> Vec<u8> {
    let mut out = vec![first];
    out.extend_from_slice(&data[..4]);
    for chunk in data[4..].chunks(8) {
        if chunk.len() == 8 {
            out.push(0xFF);
            out.extend_from_slice(chunk);
        } else {
            out.push(0xFFu8 << (8 - chunk.len()));
            out.extend_from_slice(chunk);
            out.extend_from_slice(&[0xFF, 0xFF]);
        }
    }
    out
}

#[test]
fn channel_extremes_widen_exactly() {
    assert_eq!(Color::from_15_bits(0x001F).bytes(), &[255, 0, 0]);
    assert_eq!(Color::from_15_bits(0x03E0).bytes(), &[0, 255, 0]);
    assert_eq!(Color::from_15_bits(0x7C00).bytes(), &[0, 0, 255]);
    assert_eq!(Color::from_15_bits(0x0000).bytes(), &[0, 0, 0]);
}

#[test]
fn channel_sixteen_widens_to_132() {
    assert_eq!(Color::from_15_bits(16).bytes(), &[132, 0, 0]);
    assert_eq!(Color::from_15_bits(16 << 5).bytes(), &[0, 132, 0]);
    assert_eq!(Color::from_15_bits(16 << 10).bytes(), &[0, 0, 132]);
}

#[test]
fn every_channel_value_widens_by_formula() {
    for v in 0u16..32 {
        let w = (v * 8 + v * 8 / 32) as u8;
        assert_eq!(Color::from_15_bits(v).bytes(), &[w, 0, 0]);
        assert_eq!(Color::from_15_bits(v << 5).bytes(), &[0, w, 0]);
        assert_eq!(Color::from_15_bits(v << 10).bytes(), &[0, 0, w]);
    }
}

#[test]
fn top_bit_of_packed_color_is_ignored() {
    assert_eq!(Color::from_15_bits(0x8000).bytes(), &[0, 0, 0]);
    assert_eq!(Color::from_15_bits(0xFFFF).bytes(), &[255, 255, 255]);
}

#[test]
fn palette_block_decodes_32_entries() {
    let mut block = vec![0u8; 64];
    block[2] = 0x1F;
    block[63] = 0x7C;
    let pal = Color::parse_palette(&block, 64).unwrap();
    assert_eq!(pal.len(), 32);
    assert_eq!(pal[0].bytes(), &[0, 0, 0]);
    assert_eq!(pal[1].bytes(), &[255, 0, 0]);
    assert_eq!(pal[31].bytes(), &[0, 0, 255]);
}

#[test]
fn palette_of_other_length_is_unsupported() {
    let block = vec![0u8; 64];
    assert_eq!(Color::parse_palette(&block, 32).unwrap_err(), BraError::UnsupportedPaletteFormat);
}

#[test]
fn short_palette_block_is_malformed() {
    let block = vec![0u8; 10];
    assert_eq!(Color::parse_palette(&block, 64).unwrap_err(), BraError::MalformedHeader);
}

#[test]
fn literal_only_stream_gives_its_literals() {
    let data: Vec<u8> = (0..20u8).collect();
    let stream = literal_stream(0x0F, &data);
    assert_eq!(decompress(&stream).unwrap(), data);
    let stream = literal_stream(0xCF, &data);
    assert_eq!(decompress(&stream).unwrap(), data);
}

#[test]
fn empty_stream_gives_empty_output() {
    assert_eq!(decompress(&[]).unwrap(), Vec::<u8>::new());
}

#[test]
fn overlapping_back_reference_repeats_period() {
    // method 0, flags: three literals, a reference two back over five bytes;
    // then a control byte whose first flag meets the terminator
    let stream = [0x0E, 0x41, 0x42, 0x43, 0xFE, 0xFF, 0x00, 0xFF, 0xFF];
    let out = decompress(&stream).unwrap();
    assert_eq!(out, vec![0x41, 0x42, 0x43, 0x42, 0x43, 0x42, 0x43, 0x42]);
    for n in 3..out.len() {
        assert_eq!(out[n], out[n - 2]);
    }
}

#[test]
fn back_reference_formulas_of_each_method() {
    // method 4: length (v2 >> 3) + 2, offset 0xF800 + ((v2 & 7) << 8) + v1
    let stream = [0x4E, 1, 2, 3, 0xFE, 0x1F, 0x00, 0xFF, 0xFF];
    assert_eq!(decompress(&stream).unwrap(), vec![1, 2, 3, 2, 3, 2, 3, 2]);
    // method 8: length (v2 >> 4) + 2, offset 0xF000 + ((v2 & 0xF) << 8) + v1
    let stream = [0x8E, 1, 2, 3, 0xFF, 0x1F, 0x00, 0xFF, 0xFF];
    assert_eq!(decompress(&stream).unwrap(), vec![1, 2, 3, 3, 3, 3]);
    // method C: length (v2 >> 5) + 2, offset 0xE000 + ((v2 & 0x1F) << 8) + v1
    let stream = [0xCE, 1, 2, 3, 0xFE, 0x3F, 0x00, 0xFF, 0xFF];
    assert_eq!(decompress(&stream).unwrap(), vec![1, 2, 3, 2, 3, 2]);
}

#[test]
fn back_reference_to_just_before_output_appends_zeros() {
    // method 0: one literal, a reference one byte back over one byte of
    // output, then a terminator
    let stream = [0x08, 7, 0xFF, 0x3F, 0xFF, 0xFF];
    assert_eq!(decompress(&stream).unwrap(), vec![7, 0, 0]);
}

#[test]
fn terminator_makes_next_byte_a_method_select() {
    // flags: literal, terminator (two flags left unused); then method 8 with four literals
    let stream = [0x08, 9, 0xFF, 0xFF, 0x8F, 1, 2, 3, 4];
    assert_eq!(decompress(&stream).unwrap(), vec![9, 1, 2, 3, 4]);
}

#[test]
fn unknown_method_is_rejected() {
    let stream = [0x10, 0x00, 0x00];
    assert_eq!(decompress(&stream).unwrap_err(), BraError::UnknownMethod);
}

#[test]
fn unknown_method_is_rejected_when_selected() {
    assert_eq!(decompress(&[0x1F, 1, 2, 3, 4]).unwrap_err(), BraError::UnknownMethod);
    // after a terminator, the next method-select byte is checked too
    let stream = [0x08, 9, 0xFF, 0xFF, 0x2F, 1, 2, 3, 4];
    assert_eq!(decompress(&stream).unwrap_err(), BraError::UnknownMethod);
}

#[test]
fn truncated_stream_is_rejected() {
    assert_eq!(decompress(&[0x0F, 1]).unwrap_err(), BraError::TruncatedCompressedStream);
    assert_eq!(decompress(&[0x00, 1]).unwrap_err(), BraError::TruncatedCompressedStream);
}

#[test]
fn reference_before_output_is_rejected() {
    assert_eq!(decompress(&[0x00, 0x00, 0x00]).unwrap_err(), BraError::InvalidBackReference);
}

#[test]
fn header_with_51_frames_is_unreasonable() {
    let data = header_bytes(51, 64, 32, 32, &[0u8; 64]);
    assert_eq!(Header::parse(&data).err(), Some(BraError::UnreasonableFrameCount));
}

#[test]
fn header_with_32_byte_palette_is_unsupported() {
    let data = header_bytes(1, 32, 32, 32, &[0u8; 64]);
    assert_eq!(Header::parse(&data).err(), Some(BraError::UnsupportedPaletteFormat));
}

#[test]
fn short_header_is_malformed() {
    assert_eq!(Header::parse(&[0u8; 27]).err(), Some(BraError::MalformedHeader));
    let data = header_bytes(1, 64, 32, 32, &[0u8; 10]);
    assert_eq!(Header::parse(&data).err(), Some(BraError::MalformedHeader));
}

#[test]
fn header_fields_and_addresses() {
    let mut pal = vec![0u8; 64];
    pal[0] = 0x1F;
    let data = header_bytes(3, 64, 40, 24, &pal);
    let h = Header::parse(&data).unwrap();
    assert_eq!(h.num_frames, 3);
    assert_eq!(h.dimensions(), (40, 24));
    assert_eq!(h.frame_info_addr(), 92);
    assert_eq!(h.palette().len(), 32);
    assert_eq!(h.palette()[0].bytes(), &[255, 0, 0]);
}

#[test]
fn frame_table_records() {
    let mut data = Vec::new();
    for v in [10u32, 4, 7, 0x01020304, 2, 3] {
        data.extend_from_slice(&le32(v));
    }
    let frames = Frame::parse_frames(&data, 2).unwrap();
    assert_eq!(frames.len(), 2);
    assert_eq!((frames[0].offset, frames[0].table_length, frames[0].length), (10, 4, 7));
    assert_eq!((frames[1].offset, frames[1].table_length, frames[1].length), (0x01020304, 2, 3));
    assert_eq!(Frame::parse_frames(&data, 3).unwrap_err(), BraError::TruncatedFrameTable);
}

#[test]
fn tile_table_entries() {
    let tiles: Vec<TileInfo> = Frame::parse_tile_info(&[1, 2, 3, 4, 5], 5).unwrap();
    assert_eq!(tiles.len(), 2);
    assert_eq!((tiles[0].x, tiles[0].y), (1, 2));
    assert_eq!((tiles[1].x, tiles[1].y), (3, 4));
    assert_eq!(Frame::parse_tile_info(&[1, 2, 3], 4).err().unwrap(), BraError::TruncatedTileTable);
}

/// A 32x32 container with one frame of two tiles at (0,0) and (1,0).
fn two_tile_container(pixels: &[u8]) -> (Vec<u8>, Frame) {
    let mut pal = vec![0u8; 64];
    pal[2] = 0x1F;
    let mut data = header_bytes(1, 64, 32, 32, &pal);
    let table_at = data.len() + 12;
    let stream = literal_stream(0x0F, pixels);
    for v in [table_at as u32, 4, stream.len() as u32] {
        data.extend_from_slice(&le32(v));
    }
    data.extend_from_slice(&[0, 0, 1, 0]);
    data.extend_from_slice(&stream);
    let frame = Frame { offset: table_at as u32, table_length: 4, length: stream.len() as u32 };
    (data, frame)
}

#[test]
fn two_zero_tiles_stay_transparent_black() {
    let (data, _) = two_tile_container(&[0u8; 512]);
    let h = Header::parse(&data).unwrap();
    assert_eq!(h.num_frames, 1);
    let frames = Frame::parse_frames(&data[h.frame_info_addr()..], h.num_frames).unwrap();
    let out = frames[0].decode(&data, h.width, h.height, h.palette()).unwrap();
    assert_eq!(out.len(), 32 * 32 * 4);
    assert!(out.iter().all(|&b| b == 0));
}

#[test]
fn pixels_land_by_tile_row_formula() {
    let mut pixels = vec![0u8; 512];
    // first tile, local x = 1, y = 2: palette entry 1, alpha level 7
    pixels[16 + 2] = 0xE1;
    // second tile (1, 0), local x = 0, y = 3: palette entry 1, alpha level 1
    pixels[256 + 3] = 0x21;
    let (data, frame) = two_tile_container(&pixels);
    let h = Header::parse(&data).unwrap();
    let out = frame.decode(&data, h.width, h.height, h.palette()).unwrap();
    assert_eq!(out.len(), 32 * 32 * 4);
    let at = (1 * 32 + 2) * 4;
    assert_eq!(&out[at..at + 4], &[255, 0, 0, 252]);
    let at = (16 * 32 + 3) * 4;
    assert_eq!(&out[at..at + 4], &[255, 0, 0, 36]);
    let lit = out.chunks(4).filter(|p| p != &[0, 0, 0, 0]).count();
    assert_eq!(lit, 2);
}

#[test]
fn short_pixel_stream_is_rejected() {
    let (data, frame) = two_tile_container(&[0u8; 260]);
    let h = Header::parse(&data).unwrap();
    let err = frame.decode(&data, h.width, h.height, h.palette()).unwrap_err();
    assert_eq!(err, BraError::TruncatedDecompressedStream);
}

#[test]
fn missing_palette_entry_is_rejected() {
    let (data, frame) = two_tile_container(&[0u8; 512]);
    let h = Header::parse(&data).unwrap();
    let err = frame.decode(&data, h.width, h.height, &h.palette()[..0]).unwrap_err();
    assert_eq!(err, BraError::PaletteIndexOutOfRange);
}

#[test]
fn tile_outside_raster_is_rejected() {
    let (data, frame) = two_tile_container(&[0u8; 512]);
    let h = Header::parse(&data).unwrap();
    let err = frame.decode(&data, 16, 16, h.palette()).unwrap_err();
    assert_eq!(err, BraError::TileOutOfRaster);
}

#[test]
fn frame_outside_container_is_rejected() {
    let (data, frame) = two_tile_container(&[0u8; 512]);
    let h = Header::parse(&data).unwrap();
    let far = Frame { offset: data.len() as u32 + 1, ..frame };
    assert_eq!(far.decode(&data, 32, 32, h.palette()).unwrap_err(), BraError::FrameOutOfBounds);
    let long = Frame { length: frame.length + 1, ..frame };
    assert_eq!(long.decode(&data, 32, 32, h.palette()).unwrap_err(), BraError::FrameOutOfBounds);
    let wide = Frame { table_length: 2000, ..frame };
    assert_eq!(wide.decode(&data, 32, 32, h.palette()).unwrap_err(), BraError::TruncatedTileTable);
}

#[test]
fn decoded_length_is_fixed_by_dimensions() {
    let (data, frame) = two_tile_container(&[0u8; 512]);
    let h = Header::parse(&data).unwrap();
    let none = Frame { table_length: 0, length: 0, ..frame };
    assert_eq!(none.decode(&data, 7, 5, h.palette()).unwrap().len(), 7 * 5 * 4);
    assert_eq!(frame.decode(&data, 40, 33, h.palette()).unwrap().len(), 40 * 33 * 4);
}

#[test]
fn reader_integers_and_strings() {
    let bytes = [0x34, 0x12, 1, 2, 3, 4, 1, 2, 3, 4, 2, b'h', b'i', 9];
    let mut r = SliceReader::new(&bytes);
    assert_eq!(r.read_u16_le(), Some(0x1234));
    assert_eq!(r.read_u32_le(), Some(0x04030201));
    assert_eq!(r.read_u32_be(), Some(0x01020304));
    assert_eq!(r.read_pascal_string(), Some(b"hi".to_vec()));
    assert_eq!(r.position(), 13);
    assert_eq!(r.read_u16_le(), None);
    assert_eq!(r.read_u8(), Some(9));
    assert_eq!(r.read_u8(), None);
    assert_eq!(r.byte(), None);
}

#[test]
fn failed_string_read_consumes_nothing() {
    let bytes = [5, b'a', b'b', 7];
    let mut r = SliceReader::new(&bytes);
    assert_eq!(r.read_pascal_string(), None);
    assert_eq!(r.position(), 0);
    assert_eq!(r.read_u8(), Some(5));
}
