use bra2webp::bra::Header;
use bra2webp::encode::{enlarge_canvas, frame_timestamp, EncodeError};
use bra2webp::encode_anim;
use bra2webp::error::BraError;
use bra2webp::frame::Frame;

fn header(width: u32, height: u32) -> Vec<u8> {
    let mut out = Vec::new();
    for v in [1u32, 0, 64, 0, 0, width, height] {
        out.extend_from_slice(&v.to_le_bytes());
    }
    out.extend_from_slice(&[0u8; 64]);
    out
}

#[test]
fn timestamps_are_index_times_duration() {
    assert_eq!(frame_timestamp(0, 150), 0);
    assert_eq!(frame_timestamp(3, 150), 450);
    assert_eq!(frame_timestamp(2, -7), -14);
}

#[test]
fn canvas_centres_both_ways() {
    // a 2x1 image on a 4x3 canvas: left offset 1, top offset 1
    let image = vec![1, 2, 3, 4, 5, 6, 7, 8];
    let out = enlarge_canvas(image, 2, 1, 4, 3).unwrap();
    assert_eq!(out.len(), 4 * 3 * 4);
    let at = (1 * 4 + 1) * 4;
    assert_eq!(&out[at..at + 8], &[1, 2, 3, 4, 5, 6, 7, 8]);
    assert_eq!(out.iter().filter(|&&b| b != 0).count(), 8);
}

#[test]
fn single_pixel_lands_on_middle_row() {
    let out = enlarge_canvas(vec![9, 9, 9, 9], 1, 1, 1, 3).unwrap();
    assert_eq!(out, vec![0, 0, 0, 0, 9, 9, 9, 9, 0, 0, 0, 0]);
}

#[test]
fn canvas_smaller_than_image_is_refused() {
    let image = vec![0u8; 4 * 4 * 4];
    assert!(matches!(enlarge_canvas(image.clone(), 4, 4, 3, 8), Err(EncodeError::CanvasTooSmall)));
    assert!(matches!(enlarge_canvas(image, 4, 4, 8, 3), Err(EncodeError::CanvasTooSmall)));
}

#[test]
fn zero_sized_animation_is_refused_by_encoder() {
    let data = header(0, 16);
    let info = Header::parse(&data).unwrap();
    let frames = vec![Frame { offset: 0, table_length: 0, length: 0 }];
    assert!(matches!(encode_anim(&data, frames, 100, info), Err(EncodeError::Encoder(_))));
}

#[test]
fn undecodable_frame_stops_the_animation() {
    let data = header(16, 16);
    let info = Header::parse(&data).unwrap();
    let frames = vec![Frame { offset: 5000, table_length: 0, length: 0 }];
    assert!(matches!(
        encode_anim(&data, frames, 100, info),
        Err(EncodeError::Decode(BraError::FrameOutOfBounds))
    ));
}

#[test]
fn blank_frames_encode_to_webp() {
    let data = header(16, 16);
    let info = Header::parse(&data).unwrap();
    let frames = vec![
        Frame { offset: 0, table_length: 0, length: 0 },
        Frame { offset: 0, table_length: 0, length: 0 },
    ];
    let webp = encode_anim(&data, frames, 100, info).unwrap();
    assert_eq!(&webp[0..4], b"RIFF");
    assert_eq!(&webp[8..12], b"WEBP");
}

#[test]
fn repeated_timestamp_is_refused_by_encoder() {
    let data = header(16, 16);
    let info = Header::parse(&data).unwrap();
    let frames = vec![
        Frame { offset: 0, table_length: 0, length: 0 },
        Frame { offset: 0, table_length: 0, length: 0 },
    ];
    assert!(matches!(encode_anim(&data, frames, 0, info), Err(EncodeError::Encoder(_))));
}

#[test]
fn empty_animation_is_refused_by_encoder() {
    let data = header(16, 16);
    let info = Header::parse(&data).unwrap();
    assert!(matches!(encode_anim(&data, Vec::new(), 100, info), Err(EncodeError::Encoder(_))));
}

#[test]
fn first_failing_frame_names_the_error() {
    let data = header(16, 16);
    let info = Header::parse(&data).unwrap();
    let frames = vec![
        Frame { offset: 0, table_length: 0, length: 0 },
        Frame { offset: 0, table_length: 2000, length: 0 },
        Frame { offset: 5000, table_length: 0, length: 0 },
    ];
    assert!(matches!(
        encode_anim(&data, frames, 100, info),
        Err(EncodeError::Decode(BraError::TruncatedTileTable))
    ));
}
