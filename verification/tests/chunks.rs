use flea_watch::chunks::has_sound_palette;
use flea_watch::codec::{decode_picture, decode_png, saved_pixels, DecodeError, PixelsError};

const SIGNATURE: [u8; 8] = [137, 80, 78, 71, 13, 10, 26, 10];

fn checksum(bytes: &[u8]) -> u32 {
    let mut crc = u32::MAX;
    for byte in bytes {
        crc ^= *byte as u32;
        for _ in 0..8 {
            crc = if crc & 1 == 1 { 0xedb8_8320 ^ (crc >> 1) } else { crc >> 1 };
        }
    }
    !crc
}

fn chunk(kind: &[u8; 4], data: &[u8]) -> Vec<u8> {
    let mut body = kind.to_vec();
    body.extend_from_slice(data);
    let mut bytes = (data.len() as u32).to_be_bytes().to_vec();
    bytes.extend_from_slice(&body);
    bytes.extend_from_slice(&checksum(&body).to_be_bytes());
    bytes
}

fn file(chunks: &[Vec<u8>]) -> Vec<u8> {
    let mut bytes = SIGNATURE.to_vec();
    for chunk in chunks {
        bytes.extend_from_slice(chunk);
    }
    bytes
}

/// The header of a picture of one pixel.
fn header(colours: u8) -> Vec<u8> {
    chunk(b"IHDR", &[0, 0, 0, 1, 0, 0, 0, 1, 8, colours, 0, 0, 0])
}

/// A row of pixels, stored without compression.
fn row(data: &[u8]) -> Vec<u8> {
    let mut filtered = vec![0];
    filtered.extend_from_slice(data);
    let (mut a, mut b) = (1u32, 0u32);
    for byte in &filtered {
        a = (a + *byte as u32) % 65521;
        b = (b + a) % 65521;
    }
    let length = filtered.len() as u16;
    let mut stream = vec![0x78, 0x01, 0x01];
    stream.extend_from_slice(&length.to_le_bytes());
    stream.extend_from_slice(&(!length).to_le_bytes());
    stream.extend_from_slice(&filtered);
    stream.extend_from_slice(&(b * 0x1_0000 + a).to_be_bytes());
    chunk(b"IDAT", &stream)
}

fn end() -> Vec<u8> {
    chunk(b"IEND", &[])
}

fn indexed(palette: &[u8]) -> Vec<u8> {
    file(&[header(3), chunk(b"PLTE", palette), row(&[0]), end()])
}

#[test]
fn whole_palette_is_decoded() {
    for length in [3usize, 6, 768] {
        let bytes = indexed(&vec![255; length]);
        assert!(has_sound_palette(&bytes));
        for image in [decode_png(&bytes).unwrap(), decode_picture(&bytes).unwrap()] {
            assert_eq!((image.width(), image.height()), (1, 1));
            assert_eq!(image.data()[0].bits, 1.0f32.to_bits());
        }
    }
}

#[test]
fn broken_palette_is_refused() {
    for length in [1usize, 2, 4, 5, 767, 769, 771] {
        let bytes = indexed(&vec![255; length]);
        assert!(!has_sound_palette(&bytes));
        assert!(matches!(decode_png(&bytes), Err(DecodeError::UnsoundPalette)));
        assert!(matches!(decode_picture(&bytes), Err(DecodeError::UnsoundPalette)));
        assert!(matches!(
            saved_pixels(&bytes),
            Err(PixelsError::NoPicture(DecodeError::UnsoundPalette))
        ));
    }
}

#[test]
fn palette_counts_only_for_pixels_that_are_places_of_it() {
    let bytes = file(&[header(2), chunk(b"PLTE", &[9; 4]), row(&[255, 255, 255]), end()]);
    assert!(has_sound_palette(&bytes));
    assert_eq!(decode_png(&bytes).unwrap().data()[0].bits, 1.0f32.to_bits());
}

#[test]
fn palette_counts_only_before_the_pixels() {
    let bytes =
        file(&[header(3), chunk(b"PLTE", &[0; 3]), row(&[0]), chunk(b"PLTE", &[9; 4]), end()]);
    assert!(has_sound_palette(&bytes));
    assert_eq!(decode_png(&bytes).unwrap().data()[0].bits, 0);
    let late = file(&[header(3), row(&[0]), chunk(b"PLTE", &[9; 4]), end()]);
    assert!(has_sound_palette(&late));
    assert!(matches!(decode_png(&late), Err(DecodeError::Refused(_))));
}

#[test]
fn chunks_without_data_are_passed_over() {
    let empty_header =
        file(&[chunk(b"IHDR", &[]), header(3), chunk(b"PLTE", &[9; 4]), row(&[0]), end()]);
    assert!(!has_sound_palette(&empty_header));
    let empty_palette =
        file(&[header(3), chunk(b"PLTE", &[]), chunk(b"PLTE", &[9; 4]), row(&[0]), end()]);
    assert!(!has_sound_palette(&empty_palette));
    let other = file(&[header(3), chunk(b"tEXt", b"a\0b"), chunk(b"PLTE", &[9; 4]), end()]);
    assert!(!has_sound_palette(&other));
}

#[test]
fn nothing_is_asked_of_what_is_cut_off() {
    let bytes = indexed(&[9; 4]);
    let start = SIGNATURE.len() + header(3).len();
    for length in 0..start + 16 {
        assert!(has_sound_palette(&bytes[..length]));
        assert!(matches!(decode_png(&bytes[..length]), Err(DecodeError::Refused(_))));
    }
    assert!(!has_sound_palette(&bytes[..start + 16]));
    assert!(has_sound_palette(b"GIF89a and more"));
}
