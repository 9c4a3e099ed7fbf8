use flea_watch::raster::Image;
use flea_watch::score::Score;

fn cells(values: &[f32]) -> Vec<Score> {
    values.iter().map(|v| Score::from_bits(v.to_bits())).collect()
}

#[test]
fn image_has_one_cell_per_pixel() {
    let image = Image::new(cells(&[1.0, 2.0, 3.0, 4.0, 5.0, 6.0]), 3, 2).unwrap();
    assert_eq!((image.width(), image.height()), (3, 2));
    assert_eq!(image.data()[4].bits, 5.0f32.to_bits());
}

#[test]
fn image_of_the_wrong_size_is_refused() {
    assert!(Image::new(cells(&[1.0, 2.0, 3.0]), 2, 2).is_none());
    assert!(Image::new(cells(&[1.0, 2.0, 3.0, 4.0, 5.0]), 2, 2).is_none());
    assert!(Image::new(cells(&[]), u32::MAX, u32::MAX).is_none());
    assert!(Image::new(cells(&[]), 0, 7).is_some());
}

#[test]
fn only_a_second_cell_makes_nan_unordered() {
    assert!(Image::new(cells(&[f32::NAN]), 1, 1).unwrap().is_ordered());
    assert!(!Image::new(cells(&[1.0, f32::NAN]), 2, 1).unwrap().is_ordered());
    assert!(Image::new(cells(&[1.0, f32::INFINITY]), 2, 1).unwrap().is_ordered());
}
