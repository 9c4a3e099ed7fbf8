use flea_watch::codec::{
    convert_frame_to_luma32f, decode_picture, decode_png, frame_to_png, saved_pixels, DecodeError,
    IncompleteFrame, PixelsError, SaveError,
};
use flea_watch::frame::FrameData;
use std::time::Instant;

fn frame(pixels: Vec<u8>, width: u32, height: u32) -> FrameData {
    FrameData::from_pixels(pixels, width, height, width * 4, Instant::now()).unwrap()
}

fn greys() -> Vec<u8> {
    let mut pixels = Vec::new();
    for level in 0..=255u8 {
        pixels.extend_from_slice(&[level, level, level, 255 - level]);
    }
    pixels
}

#[test]
fn grey_levels_become_fractions() {
    let luma = convert_frame_to_luma32f(&frame(greys(), 16, 16)).unwrap();
    assert_eq!((luma.width(), luma.height()), (16, 16));
    for level in 0..=255u8 {
        let bits = luma.data()[level as usize].bits;
        assert_eq!(bits, (level as f32 / 255.0).to_bits());
        // The digits over a power of two are the nearest ones.
        if level > 0 {
            let digits = (0x80_0000 + bits % 0x80_0000) as i128;
            let scale = 1i128 << (150 - bits / 0x80_0000);
            let error = 2 * (255 * digits - level as i128 * scale);
            assert!(-255 < error && error < 255);
        }
    }
}

#[test]
fn colours_are_weighed() {
    let pixels = vec![255, 0, 0, 9, 0, 255, 0, 9, 0, 0, 255, 9, 10, 20, 30, 9];
    let luma = convert_frame_to_luma32f(&frame(pixels, 2, 2)).unwrap();
    let levels: Vec<f32> = luma.data().iter().map(|s| f32::from_bits(s.bits) * 255.0).collect();
    let expected = [54.0f32, 182.0, 18.0, 18.0];
    for i in 0..4 {
        assert!((levels[i] - expected[i]).abs() < 0.001, "{} {}", levels[i], expected[i]);
    }
}

#[test]
fn surplus_bytes_are_passed_over() {
    let luma = convert_frame_to_luma32f(&frame(vec![255; 11], 2, 1)).unwrap();
    assert_eq!(luma.data().len(), 2);
    assert_eq!(luma.data()[1].bits, 1.0f32.to_bits());
}

#[test]
fn alpha_does_not_count() {
    let mut pixels = greys();
    let luma = convert_frame_to_luma32f(&frame(pixels.clone(), 16, 16)).unwrap();
    for i in 0..256 {
        pixels[4 * i + 3] = pixels[4 * i + 3].wrapping_add(77);
    }
    pixels.extend_from_slice(&[1, 2, 3]);
    let other = convert_frame_to_luma32f(&frame(pixels, 16, 16)).unwrap();
    assert_eq!(luma.data(), other.data());
}

#[test]
fn frame_with_too_few_bytes_is_refused() {
    let error = convert_frame_to_luma32f(&frame(vec![255; 15], 2, 2)).err();
    assert_eq!(error, Some(IncompleteFrame));
    assert_eq!(IncompleteFrame.message(), "Failed to create RgbaImage from raw pixels");
}

#[test]
fn frame_too_large_to_count_is_refused() {
    let huge = FrameData {
        pixels: std::sync::Arc::new(vec![0; 16]),
        width: u32::MAX,
        height: u32::MAX,
        stride: 0,
        timestamp: Instant::now(),
    };
    assert!(convert_frame_to_luma32f(&huge).is_err());
}

#[test]
fn frame_without_rows_is_an_empty_image() {
    let luma = convert_frame_to_luma32f(&frame(vec![], 5, 0)).unwrap();
    assert_eq!((luma.width(), luma.height(), luma.data().len()), (5, 0, 0));
}

#[test]
fn saved_frame_reads_back_to_the_same_grey_image() {
    let shot = frame(greys(), 32, 8);
    let file = frame_to_png(&shot).unwrap();
    assert_eq!(&file[..8], &[137, 80, 78, 71, 13, 10, 26, 10]);
    let luma = convert_frame_to_luma32f(&shot).unwrap();
    for read in [decode_png(&file).unwrap(), decode_picture(&file).unwrap()] {
        assert_eq!((read.width(), read.height()), (32, 8));
        assert_eq!(read.data(), luma.data());
    }
}

#[test]
fn saved_frame_holds_the_pixels() {
    let shot = frame(greys(), 32, 8);
    let file = frame_to_png(&shot).unwrap();
    let mut reader = png::Decoder::new(std::io::Cursor::new(file)).read_info().unwrap();
    let mut pixels = vec![0; reader.output_buffer_size()];
    let info = reader.next_frame(&mut pixels).unwrap();
    assert_eq!((info.width, info.height), (32, 8));
    assert_eq!(info.color_type, png::ColorType::Rgba);
    assert_eq!(pixels, greys());
}

#[test]
fn frame_of_the_wrong_size_is_not_saved() {
    assert!(matches!(frame_to_png(&frame(vec![0; 15], 2, 2)), Err(SaveError::WrongSize(_))));
    assert!(matches!(frame_to_png(&frame(vec![0; 17], 2, 2)), Err(SaveError::WrongSize(_))));
    assert!(matches!(frame_to_png(&frame(vec![], 0, 2)), Err(SaveError::Empty(_))));
    assert!(matches!(frame_to_png(&frame(vec![], 2, 0)), Err(SaveError::Empty(_))));
}

#[test]
fn bytes_that_are_no_picture_are_refused() {
    assert!(matches!(decode_png(b"not a picture"), Err(DecodeError::Refused(_))));
    assert!(matches!(decode_picture(b"not a picture"), Err(DecodeError::Refused(_))));
    assert!(matches!(decode_picture(b""), Err(DecodeError::Refused(_))));
    let file = frame_to_png(&frame(greys(), 16, 16)).unwrap();
    assert!(matches!(decode_png(&file[..40]), Err(DecodeError::Refused(_))));
}

#[test]
fn saved_pixels_are_those_of_the_frame() {
    let mut pixels = greys();
    for (i, byte) in pixels.iter_mut().enumerate() {
        *byte = byte.wrapping_mul(7).wrapping_add((i % 4) as u8 * 50);
    }
    let file = frame_to_png(&frame(pixels.clone(), 8, 32)).unwrap();
    let (width, height, read) = saved_pixels(&file).unwrap();
    assert_eq!((width, height), (8, 32));
    assert_eq!(read, pixels);
}

#[test]
fn picture_of_another_kind_has_no_saved_pixels() {
    let mut file = Vec::new();
    let mut encoder = png::Encoder::new(&mut file, 2, 1);
    encoder.set_color(png::ColorType::Rgb);
    encoder.set_depth(png::BitDepth::Eight);
    let mut writer = encoder.write_header().unwrap();
    writer.write_image_data(&[1, 2, 3, 4, 5, 6]).unwrap();
    drop(writer);
    assert!(decode_png(&file).is_ok());
    assert!(matches!(saved_pixels(&file), Err(PixelsError::NotRgba)));
    assert!(matches!(
        saved_pixels(b"junk"),
        Err(PixelsError::NoPicture(DecodeError::Refused(_)))
    ));
}
