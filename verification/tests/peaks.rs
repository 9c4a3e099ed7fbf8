use flea_watch::extremes::find_extremes;
use flea_watch::peaks::{find_multiple_extremes, ExtremeLocation};
use flea_watch::raster::Image;
use flea_watch::score::Score;

fn score(value: f32) -> Score {
    Score::from_bits(value.to_bits())
}

fn image(values: &[f32], width: u32, height: u32) -> Image {
    Image::new(values.iter().map(|v| score(*v)).collect(), width, height).unwrap()
}

fn peaks(values: &[f32], width: u32, height: u32, threshold: f32, distance: usize) -> Vec<ExtremeLocation> {
    find_multiple_extremes(
        &image(values, width, height),
        score(threshold),
        Score::infinity(),
        distance,
    )
}

fn pairs(found: &[ExtremeLocation]) -> Vec<(f32, (usize, usize))> {
    found.iter().map(|e| (f32::from_bits(e.value.bits), e.location)).collect()
}

/// The search on floats: lowest value first, its surroundings struck out, a stable sort at the end.
fn search(
    values: &[f32],
    width: usize,
    height: usize,
    threshold: f32,
    distance: isize,
) -> Vec<(f32, (usize, usize))> {
    let mut copy = values.to_vec();
    let mut found = Vec::new();
    while let Some((index, value)) = copy
        .iter()
        .enumerate()
        .min_by(|(_, a), (_, b)| a.partial_cmp(b).unwrap())
        .map(|(i, v)| (i, *v))
    {
        if value > threshold {
            break;
        }
        let (x, y) = (index % width, index / width);
        found.push((value, (x, y)));
        for dy in -distance..=distance {
            for dx in -distance..=distance {
                let (ny, nx) = (y as isize + dy, x as isize + dx);
                if ny >= 0 && ny < height as isize && nx >= 0 && nx < width as isize {
                    copy[ny as usize * width + nx as usize] = f32::INFINITY;
                }
            }
        }
    }
    found.sort_by(|a, b| a.0.partial_cmp(&b.0).unwrap());
    found
}

fn noise(seed: u64, count: usize) -> Vec<f32> {
    let mut state = seed;
    let mut values = Vec::new();
    for _ in 0..count {
        state = state.wrapping_mul(6364136223846793005).wrapping_add(1442695040888963407);
        values.push(((state >> 40) % 60) as f32 - 5.0);
    }
    values
}

#[test]
fn peaks_come_best_first() {
    let values = [
        9.0, 30.0, 30.0, 30.0, 4.0, //
        30.0, 30.0, 30.0, 30.0, 30.0, //
        30.0, 30.0, 30.0, 30.0, 7.0,
    ];
    let found = peaks(&values, 5, 3, 25.0, 1);
    assert_eq!(pairs(&found), vec![(4.0, (4, 0)), (7.0, (4, 2)), (9.0, (0, 0))]);
}

#[test]
fn neighbours_of_a_peak_are_struck_out() {
    let values = [3.0, 2.0, 1.0, 2.0, 3.0];
    assert_eq!(pairs(&peaks(&values, 5, 1, 25.0, 1)), vec![(1.0, (2, 0)), (3.0, (0, 0)), (3.0, (4, 0))]);
    assert_eq!(pairs(&peaks(&values, 5, 1, 25.0, 2)), vec![(1.0, (2, 0))]);
}

#[test]
fn distance_zero_finds_every_cell_up_to_the_threshold() {
    let values = [5.0, 1.0, 9.0, 1.0];
    assert_eq!(
        pairs(&peaks(&values, 2, 2, 5.0, 0)),
        vec![(1.0, (1, 0)), (1.0, (1, 1)), (5.0, (0, 0))]
    );
}

#[test]
fn threshold_itself_is_a_match() {
    assert_eq!(pairs(&peaks(&[25.0], 1, 1, 25.0, 20)), vec![(25.0, (0, 0))]);
    assert!(peaks(&[25.000002], 1, 1, 25.0, 20).is_empty());
}

#[test]
fn empty_map_has_no_peaks() {
    assert!(peaks(&[], 0, 0, 25.0, 20).is_empty());
    assert!(peaks(&[], 3, 0, f32::INFINITY, 20).is_empty());
}

#[test]
fn distance_beyond_the_map_leaves_one_peak() {
    let found = peaks(&noise(7, 30), 6, 5, 100.0, isize::MAX as usize);
    assert_eq!(found.len(), 1);
}

#[test]
fn single_nan_is_taken_as_it_is() {
    let found = peaks(&[f32::NAN], 1, 1, 25.0, 3);
    assert_eq!(found.len(), 1);
    assert!(found[0].value.is_nan());
    assert_eq!(found[0].location, (0, 0));
}

#[test]
fn infinite_cells_are_no_peaks() {
    let found = peaks(&[f32::INFINITY, f32::NEG_INFINITY], 2, 1, f32::MAX, 0);
    assert_eq!(pairs(&found), vec![(f32::NEG_INFINITY, (1, 0))]);
}

#[test]
fn max_threshold_plays_no_part() {
    let map = image(&noise(3, 20), 5, 4);
    let one = find_multiple_extremes(&map, score(25.0), score(0.0), 1);
    let other = find_multiple_extremes(&map, score(25.0), Score::infinity(), 1);
    assert_eq!(one, other);
}

#[test]
fn zeros_of_either_sign_tie() {
    let found = peaks(&[0.0, -0.0], 2, 1, 1.0, 0);
    assert_eq!(found[0].location, (0, 0));
    assert_eq!(found[0].value.bits, 0);
    assert_eq!(found[1].value.bits, 0x8000_0000);
}

#[test]
fn peaks_agree_with_the_search_on_floats() {
    for seed in 0..40u64 {
        let values = noise(seed, 63);
        for distance in 0..5usize {
            let found = pairs(&peaks(&values, 9, 7, 25.0, distance));
            assert_eq!(found, search(&values, 9, 7, 25.0, distance as isize));
        }
    }
}

#[test]
fn peaks_are_apart_and_cover() {
    for seed in 0..20u64 {
        let values = noise(seed, 80);
        let found = peaks(&values, 10, 8, 20.0, 2);
        for a in 0..found.len() {
            for b in 0..a {
                let (p, q) = (found[a].location, found[b].location);
                assert!(p.0.abs_diff(q.0) > 2 || p.1.abs_diff(q.1) > 2);
                assert!(!found[a].value.is_below(found[b].value));
            }
        }
        for i in 0..values.len() {
            if values[i] <= 20.0 {
                let near = found.iter().any(|e| {
                    e.location.0.abs_diff(i % 10) <= 2 && e.location.1.abs_diff(i / 10) <= 2
                });
                assert!(near);
            }
        }
    }
}

#[test]
fn first_peak_is_the_minimum() {
    for seed in 0..20u64 {
        let map = image(&noise(seed, 80), 10, 8);
        let found = find_multiple_extremes(&map, score(25.0), Score::infinity(), 3);
        let extremes = find_extremes(&map);
        assert_eq!(found[0].value, extremes.min_value);
        let (x, y) = extremes.min_value_location;
        assert_eq!(found[0].location, (x as usize, y as usize));
    }
}

#[test]
fn lower_threshold_gives_the_start_of_the_list() {
    let values: Vec<f32> = (0..120).map(|i| ((i * 37) % 101) as f32).collect();
    for (lower, upper) in [(0.0f32, 60.0f32), (10.0, 10.0), (25.0, 40.0), (-5.0, 30.0)] {
        let few = pairs(&peaks(&values, 12, 10, lower, 1));
        let many = pairs(&peaks(&values, 12, 10, upper, 1));
        let expected: Vec<(f32, (usize, usize))> =
            many.iter().filter(|p| p.0 <= lower).cloned().collect();
        assert_eq!(few, expected);
        assert_eq!(few.as_slice(), &many[..few.len()]);
    }
}

#[test]
fn upper_threshold_plays_no_part() {
    let values = [4.0f32, 9.0, 2.0, 7.0, 1.0, 8.0];
    let map = image(&values, 6, 1);
    let expected = peaks(&values, 6, 1, 5.0, 1);
    assert_eq!(pairs(&expected), vec![(1.0, (4, 0)), (2.0, (2, 0)), (4.0, (0, 0))]);
    for upper in [f32::NAN, -1.0, 0.0, 5.0, f32::INFINITY] {
        assert_eq!(find_multiple_extremes(&map, score(5.0), score(upper), 1), expected);
    }
}
