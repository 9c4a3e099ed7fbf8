//! The smallest and the largest score of a map, and where they stand.
use crate::raster::{cell_at, lemma_cell_in_grid, Grid, Image};
use crate::score::{Score, LARGEST_BITS, SMALLEST_BITS};
use vstd::prelude::*;

verus! {

/// The smallest and the largest score, each with column and row.
#[derive(Clone, Copy, Debug, PartialEq, Eq)]
pub struct Extremes {
    pub min_value: Score,
    pub max_value: Score,
    pub min_value_location: (u32, u32),
    pub max_value_location: (u32, u32),
}

/// `place` is column and row of cell `i`.
pub open spec fn stands_at(grid: Grid, i: int, place: (u32, u32)) -> bool {
    &&& 0 <= i < grid.cells.len()
    &&& cell_at(grid.width, i) == (place.0 as int, place.1 as int)
}

/// `value` at `place` is the smallest score: the first of the smallest cells that are below the
/// largest finite number or, where there is no such cell, that number in the top left corner.
pub open spec fn is_minimum(grid: Grid, value: Score, place: (u32, u32)) -> bool {
    let start = Score::from_bits(LARGEST_BITS);
    if exists|i: int| 0 <= i < grid.cells.len() && (#[trigger] grid.cells[i]).lt(start) {
        exists|i: int|
            {
                &&& #[trigger] stands_at(grid, i, place)
                &&& grid.cells[i] == value
                &&& value.lt(start)
                &&& forall|j: int|
                    0 <= j < grid.cells.len() ==> !(#[trigger] grid.cells[j]).lt(value)
                &&& forall|j: int|
                    0 <= j < i ==> (#[trigger] grid.cells[j]).nan() || value.lt(grid.cells[j])
            }
    } else {
        value == start && place == (0u32, 0u32)
    }
}

/// `value` at `place` is the largest score: the first of the largest cells that are above the
/// smallest finite number or, where there is no such cell, that number in the top left corner.
pub open spec fn is_maximum(grid: Grid, value: Score, place: (u32, u32)) -> bool {
    let start = Score::from_bits(SMALLEST_BITS);
    if exists|i: int| 0 <= i < grid.cells.len() && start.lt(#[trigger] grid.cells[i]) {
        exists|i: int|
            {
                &&& #[trigger] stands_at(grid, i, place)
                &&& grid.cells[i] == value
                &&& start.lt(value)
                &&& forall|j: int|
                    0 <= j < grid.cells.len() ==> !value.lt(#[trigger] grid.cells[j])
                &&& forall|j: int|
                    0 <= j < i ==> (#[trigger] grid.cells[j]).nan() || grid.cells[j].lt(value)
            }
    } else {
        value == start && place == (0u32, 0u32)
    }
}

/// Of the first `n` cells, `index` is the first smallest one below the largest finite number.
spec fn least_so_far(cells: Seq<Score>, n: int, value: Score, index: Option<usize>) -> bool {
    let start = Score::from_bits(LARGEST_BITS);
    match index {
        Some(i) => {
            &&& i < n
            &&& cells[i as int] == value
            &&& value.lt(start)
            &&& forall|j: int| 0 <= j < n ==> !(#[trigger] cells[j]).lt(value)
            &&& forall|j: int| 0 <= j < i ==> (#[trigger] cells[j]).nan() || value.lt(cells[j])
        },
        None => value == start && forall|j: int| 0 <= j < n ==> !(#[trigger] cells[j]).lt(start),
    }
}

/// Of the first `n` cells, `index` is the first largest one above the smallest finite number.
spec fn greatest_so_far(cells: Seq<Score>, n: int, value: Score, index: Option<usize>) -> bool {
    let start = Score::from_bits(SMALLEST_BITS);
    match index {
        Some(i) => {
            &&& i < n
            &&& cells[i as int] == value
            &&& start.lt(value)
            &&& forall|j: int| 0 <= j < n ==> !value.lt(#[trigger] cells[j])
            &&& forall|j: int| 0 <= j < i ==> (#[trigger] cells[j]).nan() || cells[j].lt(value)
        },
        None => value == start && forall|j: int| 0 <= j < n ==> !start.lt(#[trigger] cells[j]),
    }
}

/// Column and row of a cell; the top left corner where there is no cell.
fn place_of(image: &Image, index: Option<usize>) -> (place: (u32, u32))
    requires
        index matches Some(i) ==> i < image@.cells.len(),
    ensures
        index matches Some(i) ==> stands_at(image@, i as int, place),
        index is None ==> place == (0u32, 0u32),
{
    proof {
        use_type_invariant(image);
    }
    match index {
        Some(i) => {
            proof {
                lemma_cell_in_grid(image@, i as int);
            }
            let width = image.width() as usize;
            ((i % width) as u32, (i / width) as u32)
        },
        None => (0, 0),
    }
}

/// Finds the smallest and the largest score and their positions. What is not a number is passed
/// over.
pub fn find_extremes(input: &Image) -> (extremes: Extremes)
    ensures
        is_minimum(input@, extremes.min_value, extremes.min_value_location),
        is_maximum(input@, extremes.max_value, extremes.max_value_location),
{
    let cells = input.data();
    let mut min_value = Score::from_bits(LARGEST_BITS);
    let mut max_value = Score::from_bits(SMALLEST_BITS);
    let mut min_index: Option<usize> = None;
    let mut max_index: Option<usize> = None;
    for i in 0..cells.len()
        invariant
            least_so_far(cells@, i as int, min_value, min_index),
            greatest_so_far(cells@, i as int, max_value, max_index),
    {
        let value = cells[i];
        if value.is_below(min_value) {
            min_value = value;
            min_index = Some(i);
        }
        if max_value.is_below(value) {
            max_value = value;
            max_index = Some(i);
        }
    }
    let min_value_location = place_of(input, min_index);
    let max_value_location = place_of(input, max_index);
    Extremes { min_value, max_value, min_value_location, max_value_location }
}

/// What is found is the smallest and the largest of all cells, whatever the size of the map.
///
/// No cell is below the smallest score and none above the largest. Each is a cell of the map, at
/// the column and row that come with it, and the first such cell. Only where no cell is below the
/// largest finite number, or none above the smallest, that number stands in for it.
pub proof fn lemma_nothing_is_beyond_the_extremes(map: Image, extremes: Extremes)
    requires
        map@.cells.len() == map@.width * map@.height,
        call_ensures(find_extremes, (&map,), extremes),
    ensures
        forall|i: int|
            0 <= i < map@.cells.len() ==> !(#[trigger] map@.cells[i]).lt(extremes.min_value),
        forall|i: int|
            0 <= i < map@.cells.len() ==> !extremes.max_value.lt(#[trigger] map@.cells[i]),
        ({
            let (x, y) = extremes.min_value_location;
            let at = y * map@.width + x;
            ||| {
                &&& x < map@.width
                &&& y < map@.height
                &&& 0 <= at < map@.cells.len()
                &&& map@.cells[at] == extremes.min_value
                &&& extremes.min_value.lt(Score { bits: 0x7f7f_ffff })
                &&& forall|i: int|
                    0 <= i < at ==> (#[trigger] map@.cells[i]).nan() || extremes.min_value.lt(
                        map@.cells[i],
                    )
            }
            ||| {
                &&& (x, y) == (0u32, 0u32)
                &&& extremes.min_value.bits == 0x7f7f_ffff
            }
        }),
        ({
            let (x, y) = extremes.max_value_location;
            let at = y * map@.width + x;
            ||| {
                &&& x < map@.width
                &&& y < map@.height
                &&& 0 <= at < map@.cells.len()
                &&& map@.cells[at] == extremes.max_value
                &&& (Score { bits: 0xff7f_ffff }).lt(extremes.max_value)
                &&& forall|i: int|
                    0 <= i < at ==> (#[trigger] map@.cells[i]).nan() || map@.cells[i].lt(
                        extremes.max_value,
                    )
            }
            ||| {
                &&& (x, y) == (0u32, 0u32)
                &&& extremes.max_value.bits == 0xff7f_ffff
            }
        }),
{
    let grid = map@;
    let smallest = Score::from_bits(LARGEST_BITS);
    let largest = Score::from_bits(SMALLEST_BITS);
    if exists|i: int| 0 <= i < grid.cells.len() && (#[trigger] grid.cells[i]).lt(smallest) {
        let i = choose|i: int|
            {
                &&& #[trigger] stands_at(grid, i, extremes.min_value_location)
                &&& grid.cells[i] == extremes.min_value
                &&& extremes.min_value.lt(smallest)
                &&& forall|j: int|
                    0 <= j < grid.cells.len() ==> !(#[trigger] grid.cells[j]).lt(
                        extremes.min_value,
                    )
                &&& forall|j: int|
                    0 <= j < i ==> (#[trigger] grid.cells[j]).nan() || extremes.min_value.lt(
                        grid.cells[j],
                    )
            };
        lemma_cell_in_grid(grid, i);
    }
    if exists|i: int| 0 <= i < grid.cells.len() && largest.lt(#[trigger] grid.cells[i]) {
        let i = choose|i: int|
            {
                &&& #[trigger] stands_at(grid, i, extremes.max_value_location)
                &&& grid.cells[i] == extremes.max_value
                &&& largest.lt(extremes.max_value)
                &&& forall|j: int|
                    0 <= j < grid.cells.len() ==> !extremes.max_value.lt(#[trigger] grid.cells[j])
                &&& forall|j: int|
                    0 <= j < i ==> (#[trigger] grid.cells[j]).nan() || grid.cells[j].lt(
                        extremes.max_value,
                    )
            };
        lemma_cell_in_grid(grid, i);
    }
}

} // verus!
