use flea_watch::extremes::find_extremes;
use flea_watch::raster::Image;
use flea_watch::score::Score;

fn compare(values: Vec<f32>, width: u32, height: u32) {
    let cells = values.iter().map(|v| Score::from_bits(v.to_bits())).collect();
    let ours = find_extremes(&Image::new(cells, width, height).unwrap());
    let theirs = template_matching::find_extremes(&template_matching::Image::new(values, width, height));
    assert_eq!(ours.min_value.bits, theirs.min_value.to_bits());
    assert_eq!(ours.max_value.bits, theirs.max_value.to_bits());
    assert_eq!(ours.min_value_location, theirs.min_value_location);
    assert_eq!(ours.max_value_location, theirs.max_value_location);
}

#[test]
fn extremes_agree_with_the_matching_crate() {
    compare(vec![3.0, 1.0, 2.0, 1.0, 9.0, 9.0], 3, 2);
    compare(vec![-1.0, -2.0, -2.0], 1, 3);
    compare(vec![], 0, 0);
    compare(vec![f32::INFINITY, f32::INFINITY], 2, 1);
    compare(vec![f32::NEG_INFINITY, f32::NEG_INFINITY], 2, 1);
    compare(vec![f32::MAX, f32::MIN], 2, 1);
    compare(vec![f32::NAN, f32::NAN], 1, 2);
    compare(vec![f32::NAN, 4.0, f32::NAN, 2.0], 2, 2);
    compare(vec![0.0, -0.0, 0.0], 3, 1);
}

#[test]
fn extremes_of_noise_agree_with_the_matching_crate() {
    let mut state: u32 = 12345;
    for _ in 0..50 {
        let mut values = Vec::new();
        for _ in 0..42 {
            state = state.wrapping_mul(1664525).wrapping_add(1013904223);
            values.push(((state >> 16) % 17) as f32 / 3.0 - 2.0);
        }
        compare(values, 7, 6);
    }
}

#[test]
fn minimum_of_a_map_above_every_finite_number_is_the_start() {
    let cells = vec![Score::infinity(), Score::infinity()];
    let extremes = find_extremes(&Image::new(cells, 2, 1).unwrap());
    assert_eq!(extremes.min_value.bits, f32::MAX.to_bits());
    assert_eq!(extremes.min_value_location, (0, 0));
    assert_eq!(extremes.max_value.bits, f32::INFINITY.to_bits());
    assert_eq!(extremes.max_value_location, (0, 0));
}
