use flea_watch::frame::FrameData;
use flea_watch::codec::{convert_frame_to_luma32f, frame_to_png};
use flea_watch::items::{load_item_images, ItemFile, LoadedItems};
use flea_watch::raster::Image;
use flea_watch::score::Score;
use flea_watch::search::{find_item, locate_matches, SearchError};
use std::time::Instant;

fn map(values: &[f32], width: u32) -> Image {
    let cells = values.iter().map(|v| Score::from_bits(v.to_bits())).collect();
    Image::new(cells, width, values.len() as u32 / width).unwrap()
}

fn frame(level: u8) -> FrameData {
    FrameData::from_pixels(vec![level; 4], 1, 1, 4, Instant::now()).unwrap()
}

fn items() -> LoadedItems {
    let file = frame_to_png(&frame(50)).unwrap();
    load_item_images("Grizzly", |_: String| ItemFile::Found(file.clone())).unwrap()
}

#[test]
fn matches_are_more_than_twenty_apart() {
    let mut values = vec![90.0; 50];
    values[3] = 25.0;
    values[23] = 1.0;
    values[44] = 2.0;
    let found = locate_matches(Some(map(&values, 50))).unwrap();
    let places: Vec<(usize, usize)> = found.iter().map(|e| e.location).collect();
    assert_eq!(places, vec![(23, 0), (44, 0)]);
    values[23] = 25.5;
    let found = locate_matches(Some(map(&values, 50))).unwrap();
    let places: Vec<(usize, usize)> = found.iter().map(|e| e.location).collect();
    assert_eq!(places, vec![(44, 0), (3, 0)]);
}

#[test]
fn scores_that_are_no_numbers_are_an_error() {
    let found = locate_matches(Some(map(&[1.0, f32::NAN], 2)));
    assert_eq!(found, Err(SearchError::UnorderedScores));
    assert_eq!(locate_matches(None), Err(SearchError::NoMatchResult));
}

#[test]
fn matcher_gets_the_frame_and_the_picture() {
    let sight = convert_frame_to_luma32f(&frame(80)).unwrap();
    let picture = convert_frame_to_luma32f(&frame(50)).unwrap();
    let found = find_item(&items(), "Grizzly", &sight, |f: &Image, p: &Image| {
        assert_eq!(f.data(), sight.data());
        assert_eq!(p.data(), picture.data());
        Some(map(&[7.0], 1))
    });
    let found = found.unwrap().unwrap();
    assert_eq!(found.len(), 1);
    assert_eq!(found[0].value.bits, 7.0f32.to_bits());
}

#[test]
fn unknown_item_is_not_searched_for() {
    let sight = convert_frame_to_luma32f(&frame(80)).unwrap();
    let found = find_item(&items(), "Salewa", &sight, |_: &Image, _: &Image| panic!("asked"));
    assert!(found.is_none());
}
