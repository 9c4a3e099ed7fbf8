use flea_watch::frame::{pixel_bytes, row_stride, BufferError, FrameData};
use std::sync::Arc;
use std::time::Instant;

#[test]
fn stride_is_four_bytes_per_pixel() {
    assert_eq!(row_stride(1920), Some(7680));
    assert_eq!(row_stride(0x3fff_ffff), Some(0xffff_fffc));
    assert_eq!(row_stride(0x4000_0000), None);
}

#[test]
fn pixel_bytes_are_counted_in_32_bits() {
    assert_eq!(pixel_bytes(7680, 1080), Some(8_294_400));
    assert_eq!(pixel_bytes(0x1_0000, 0x1_0000), None);
}

#[test]
fn frame_holds_what_it_was_made_of() {
    let now = Instant::now();
    let frame = FrameData::from_pixels(vec![1, 2, 3, 4, 5, 6, 7, 8], 2, 1, 8, now).unwrap();
    assert_eq!((frame.width, frame.height, frame.stride), (2, 1, 8));
    assert_eq!(frame.pixels.as_slice(), &[1, 2, 3, 4, 5, 6, 7, 8]);
    assert_eq!(frame.timestamp, now);
    assert!(FrameData::from_pixels(vec![], 0x4000_0000, 1, u32::MAX, now).is_none());
}

#[test]
fn stride_counts_the_padding_of_a_row() {
    let rows: Vec<u8> = (0..24).collect();
    let frame = FrameData::from_pixels(rows.clone(), 2, 2, 12, Instant::now()).unwrap();
    assert_eq!((frame.width, frame.height, frame.stride), (2, 2, 12));
    assert_eq!(frame.pixels.as_slice(), rows.as_slice());
    assert_eq!(frame.pixels.len(), (frame.stride * frame.height) as usize);
}

#[test]
fn clone_shares_the_pixels() {
    let frame = FrameData::from_pixels(vec![9; 16], 2, 2, 8, Instant::now()).unwrap();
    let copy = frame.clone();
    assert!(Arc::ptr_eq(&frame.pixels, &copy.pixels));
    assert_eq!((copy.width, copy.height, copy.stride), (2, 2, 8));
    assert_eq!(copy.timestamp, frame.timestamp);
}

#[test]
fn frame_takes_its_rows_from_the_buffer() {
    let buffer: Vec<u8> = (0..20).collect();
    let now = Instant::now();
    let frame = FrameData::from_buffer(&buffer, 2, 2, now).unwrap();
    assert_eq!(frame.pixels.as_slice(), &buffer[..16]);
    assert_eq!((frame.width, frame.height, frame.stride), (2, 2, 8));
    assert_eq!(frame.timestamp, now);
}

#[test]
fn buffer_has_to_hold_every_row() {
    let now = Instant::now();
    let short = FrameData::from_buffer(&[0; 15], 2, 2, now).err();
    assert_eq!(short, Some(BufferError::TooShort));
    let wide = FrameData::from_buffer(&[0; 15], 0x4000_0000, 0, now).err();
    assert_eq!(wide, Some(BufferError::TooLarge));
    let tall = FrameData::from_buffer(&[0; 15], 0x1_0000, 0x1_0000, now).err();
    assert_eq!(tall, Some(BufferError::TooLarge));
}
