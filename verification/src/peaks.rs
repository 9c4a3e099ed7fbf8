//! The best positions of a score map: repeatedly the lowest score, each time with everything
//! around the last find struck out.
use crate::extremes::{is_minimum, stands_at};
use crate::raster::{cell_at, lemma_cell_exists, lemma_cell_in_grid, lemma_cell_index, Grid, Image};
use crate::score::{Score, LARGEST_BITS};
use vstd::prelude::*;

verus! {

/// A position of a score map, with its score.
#[derive(Clone, Copy, Debug, PartialEq, Eq)]
pub struct ExtremeLocation {
    pub value: Score,
    /// Column and row.
    pub location: (usize, usize),
}

impl ExtremeLocation {
    /// Column and row.
    pub open spec fn at(self) -> (int, int) {
        (self.location.0 as int, self.location.1 as int)
    }

    /// The number of the cell, where a row has `width` cells.
    pub open spec fn index(self, width: u32) -> int {
        self.location.1 * width + self.location.0
    }
}

/// Neither the columns nor the rows are more than `distance` apart.
pub open spec fn near(a: (int, int), b: (int, int), distance: nat) -> bool {
    &&& -distance <= a.0 - b.0 <= distance
    &&& -distance <= a.1 - b.1 <= distance
}

/// Cell `i` is near one of the peaks.
pub open spec fn covered(
    width: u32,
    peaks: Seq<ExtremeLocation>,
    distance: nat,
    i: int,
) -> bool {
    exists|k: int|
        0 <= k < peaks.len() && near((#[trigger] peaks[k]).at(), cell_at(width, i), distance)
}

/// The cells once everything near the peaks has been struck out.
pub open spec fn remaining(grid: Grid, peaks: Seq<ExtremeLocation>, distance: nat) -> Seq<Score> {
    Seq::new(
        grid.cells.len(),
        |i: int|
            if covered(grid.width, peaks, distance, i) {
                Score::infinity()
            } else {
                grid.cells[i]
            },
    )
}

/// Cell `i` is the first of the lowest cells.
pub open spec fn first_min(cells: Seq<Score>, i: int) -> bool {
    &&& 0 <= i < cells.len()
    &&& forall|j: int| 0 <= j < cells.len() ==> cells[i].key() <= (#[trigger] cells[j]).key()
    &&& forall|j: int| 0 <= j < i ==> cells[i].key() < (#[trigger] cells[j]).key()
}

/// After `found`, the next peak is `peak`: the first of the lowest cells that remain, and not
/// above the threshold.
pub open spec fn next_peak(
    grid: Grid,
    threshold: Score,
    distance: nat,
    found: Seq<ExtremeLocation>,
    peak: ExtremeLocation,
) -> bool {
    let cells = remaining(grid, found, distance);
    let i = peak.index(grid.width);
    &&& peak.location.0 < grid.width
    &&& peak.location.1 < grid.height
    &&& first_min(cells, i)
    &&& peak.value == cells[i]
    &&& !threshold.lt(peak.value)
}

/// The peaks of the grid, in the order in which they are found: each is the next one after those
/// before it, and whatever remains after the last one is above the threshold.
pub open spec fn peak_list(
    grid: Grid,
    threshold: Score,
    distance: nat,
    peaks: Seq<ExtremeLocation>,
) -> bool {
    &&& forall|k: int|
        0 <= k < peaks.len() ==> next_peak(
            grid,
            threshold,
            distance,
            peaks.take(k),
            #[trigger] peaks[k],
        )
    &&& forall|i: int|
        0 <= i < grid.cells.len() ==> threshold.lt(
            #[trigger] remaining(grid, peaks, distance)[i],
        )
}

/// How many cells are not above the threshold.
spec fn open_cells(cells: Seq<Score>, threshold: Score) -> nat
    decreases cells.len(),
{
    if cells.len() == 0 {
        0
    } else {
        open_cells(cells.drop_last(), threshold) + if threshold.lt(cells.last()) {
            0nat
        } else {
            1nat
        }
    }
}

/// Striking out cells closes them.
proof fn lemma_striking_out_closes(before: Seq<Score>, after: Seq<Score>, threshold: Score)
    requires
        before.len() == after.len(),
        forall|j: int|
            0 <= j < after.len() ==> after[j] == before[j] || threshold.lt(#[trigger] after[j]),
    ensures
        open_cells(after, threshold) <= open_cells(before, threshold),
        forall|i: int|
            0 <= i < after.len() && !threshold.lt(before[i]) && threshold.lt(#[trigger] after[i])
                ==> open_cells(after, threshold) < open_cells(before, threshold),
    decreases before.len(),
{
    if before.len() > 0 {
        let b = before.drop_last();
        let a = after.drop_last();
        assert forall|j: int| 0 <= j < a.len() implies a[j] == b[j] || threshold.lt(
            #[trigger] a[j],
        ) by {
            assert(a[j] == after[j]);
        }
        lemma_striking_out_closes(b, a, threshold);
        assert forall|i: int|
            0 <= i < after.len() && !threshold.lt(before[i]) && threshold.lt(
                #[trigger] after[i],
            ) implies open_cells(after, threshold) < open_cells(before, threshold) by {
            if i < after.len() - 1 {
                assert(a[i] == after[i] && b[i] == before[i]);
            }
        }
    }
}

/// The first of the lowest cells.
fn min_index(cells: &Vec<Score>) -> (index: usize)
    requires
        cells@.len() > 0,
        cells@.len() == 1 || forall|i: int|
            0 <= i < cells@.len() ==> !(#[trigger] cells@[i]).nan(),
    ensures
        first_min(cells@, index as int),
{
    let mut best: usize = 0;
    for i in 1..cells.len()
        invariant
            1 <= cells@.len(),
            best < i,
            best < cells@.len(),
            cells@.len() == 1 || forall|j: int|
                0 <= j < cells@.len() ==> !(#[trigger] cells@[j]).nan(),
            forall|j: int| 0 <= j < i ==> cells@[best as int].key() <= (#[trigger] cells@[j]).key(),
            forall|j: int|
                0 <= j < best ==> cells@[best as int].key() < (#[trigger] cells@[j]).key(),
    {
        if cells[i].is_below(cells[best]) {
            best = i;
        }
    }
    best
}

/// The positions within `distance` of `x`, out of `count` positions: the first one, and the one
/// after the last.
fn window(x: usize, distance: usize, count: usize) -> (bounds: (usize, usize))
    requires
        x < count,
    ensures
        bounds.0 == if distance <= x {
            x - distance
        } else {
            0
        },
        bounds.1 == if x + distance < count {
            x + distance + 1
        } else {
            count as int
        },
{
    let first: usize = if distance <= x {
        x - distance
    } else {
        0
    };
    let end: usize = if distance < count - x {
        x + distance + 1
    } else {
        count
    };
    (first, end)
}

/// Strikes out every cell near column `x` and row `y`.
fn suppress(
    cells: &mut Vec<Score>,
    Ghost(grid): Ghost<Grid>,
    width: u32,
    height: u32,
    x: usize,
    y: usize,
    distance: usize,
)
    requires
        grid.wf(),
        grid.width == width,
        grid.height == height,
        old(cells)@.len() == grid.cells.len(),
        x < width,
        y < height,
    ensures
        final(cells)@.len() == old(cells)@.len(),
        forall|i: int|
            0 <= i < final(cells)@.len() ==> #[trigger] final(cells)@[i] == if near(
                (x as int, y as int),
                cell_at(width, i),
                distance as nat,
            ) {
                Score::infinity()
            } else {
                old(cells)@[i]
            },
{
    let ghost before = cells@;
    let (left, right) = window(x, distance, width as usize);
    let (top, bottom) = window(y, distance, height as usize);
    for row in top..bottom
        invariant
            grid.wf(),
            grid.width == width,
            grid.height == height,
            before.len() == grid.cells.len(),
            cells@.len() == grid.cells.len(),
            left <= right <= width,
            top <= bottom <= height,
            forall|i: int|
                0 <= i < cells@.len() ==> #[trigger] cells@[i] == if left <= cell_at(width, i).0
                    < right && top <= cell_at(width, i).1 < row {
                    Score::infinity()
                } else {
                    before[i]
                },
    {
        for column in left..right
            invariant
                grid.wf(),
                grid.width == width,
                grid.height == height,
                before.len() == grid.cells.len(),
                cells@.len() == grid.cells.len(),
                left <= right <= width,
                top <= row < bottom <= height,
                forall|i: int|
                    0 <= i < cells@.len() ==> #[trigger] cells@[i] == if left <= cell_at(
                        width,
                        i,
                    ).0 < right && top <= cell_at(width, i).1 < row || left <= cell_at(
                        width,
                        i,
                    ).0 < column && cell_at(width, i).1 == row {
                        Score::infinity()
                    } else {
                        before[i]
                    },
        {
            let ghost index = row * width + column;
            proof {
                lemma_cell_exists(grid, column as int, row as int);
                lemma_cell_index(width, column as int, row as int);
                assert(0 <= row * width <= index) by (nonlinear_arith)
                    requires
                        row >= 0,
                        width >= 0,
                        column >= 0,
                        index == row * width + column,
                ;
                assert(index < cells.len());
                assert forall|i: int|
                    0 <= i < grid.cells.len() && cell_at(width, i) == (
                        column as int,
                        row as int,
                    ) implies i == index by {
                    lemma_cell_in_grid(grid, i);
                }
            }
            cells.set(row * width as usize + column, Score::infinity());
        }
    }
    proof {
        assert forall|i: int| 0 <= i < cells@.len() implies #[trigger] cells@[i] == if near(
            (x as int, y as int),
            cell_at(width, i),
            distance as nat,
        ) {
            Score::infinity()
        } else {
            before[i]
        } by {
            lemma_cell_in_grid(grid, i);
        }
    }
}

/// What holds of one peak: it lies in the grid, it has the score that the grid has there, and
/// that score is not above the threshold.
pub proof fn lemma_peak_is_a_cell(
    grid: Grid,
    threshold: Score,
    distance: nat,
    peaks: Seq<ExtremeLocation>,
    k: int,
)
    requires
        grid.wf(),
        threshold.lt(Score::infinity()),
        peak_list(grid, threshold, distance, peaks),
        0 <= k < peaks.len(),
    ensures
        peaks[k].location.0 < grid.width,
        peaks[k].location.1 < grid.height,
        0 <= peaks[k].index(grid.width) < grid.cells.len(),
        cell_at(grid.width, peaks[k].index(grid.width)) == peaks[k].at(),
        peaks[k].value == grid.cells[peaks[k].index(grid.width)],
        !threshold.lt(peaks[k].value),
        !covered(grid.width, peaks.take(k), distance, peaks[k].index(grid.width)),
{
    assert(next_peak(grid, threshold, distance, peaks.take(k), peaks[k]));
    lemma_cell_index(grid.width, peaks[k].location.0 as int, peaks[k].location.1 as int);
}

/// One more peak strikes out what is near it.
proof fn lemma_remaining_after_push(
    grid: Grid,
    found: Seq<ExtremeLocation>,
    peak: ExtremeLocation,
    distance: nat,
)
    ensures
        forall|i: int|
            0 <= i < grid.cells.len() ==> #[trigger] remaining(grid, found.push(peak), distance)[i]
                == if near(peak.at(), cell_at(grid.width, i), distance) {
                Score::infinity()
            } else {
                remaining(grid, found, distance)[i]
            },
{
    let more = found.push(peak);
    assert forall|i: int| 0 <= i < grid.cells.len() implies #[trigger] remaining(
        grid,
        more,
        distance,
    )[i] == if near(peak.at(), cell_at(grid.width, i), distance) {
        Score::infinity()
    } else {
        remaining(grid, found, distance)[i]
    } by {
        let at = cell_at(grid.width, i);
        if near(peak.at(), at, distance) {
            assert(near(more[found.len() as int].at(), at, distance));
        }
        if covered(grid.width, found, distance, i) {
            let k = choose|k: int|
                0 <= k < found.len() && near((#[trigger] found[k]).at(), at, distance);
            assert(near(more[k].at(), at, distance));
        }
        if covered(grid.width, more, distance, i) {
            let k = choose|k: int|
                0 <= k < more.len() && near((#[trigger] more[k]).at(), at, distance);
            if k < found.len() {
                assert(near(found[k].at(), at, distance));
            }
        }
    }
}

/// What remains after some of the peaks, of a cell that is not near any of them.
proof fn lemma_later_cell_was_there(
    grid: Grid,
    peaks: Seq<ExtremeLocation>,
    distance: nat,
    a: int,
    b: int,
    i: int,
)
    requires
        0 <= a <= b <= peaks.len(),
        !covered(grid.width, peaks.take(b), distance, i),
    ensures
        !covered(grid.width, peaks.take(a), distance, i),
{
    if covered(grid.width, peaks.take(a), distance, i) {
        let at = cell_at(grid.width, i);
        let k = choose|k: int|
            0 <= k < a && near((#[trigger] peaks.take(a)[k]).at(), at, distance);
        assert(near(peaks.take(b)[k].at(), at, distance));
    }
}

/// The best peaks come first: scores never fall along the list.
pub proof fn lemma_peaks_ascend(
    grid: Grid,
    threshold: Score,
    distance: nat,
    peaks: Seq<ExtremeLocation>,
)
    requires
        grid.wf(),
        threshold.lt(Score::infinity()),
        peak_list(grid, threshold, distance, peaks),
    ensures
        forall|a: int, b: int|
            0 <= a <= b < peaks.len() ==> (#[trigger] peaks[a]).value.key() <= (
            #[trigger] peaks[b]).value.key(),
{
    assert forall|a: int, b: int| 0 <= a <= b < peaks.len() implies (
    #[trigger] peaks[a]).value.key() <= (#[trigger] peaks[b]).value.key() by {
        lemma_peak_is_a_cell(grid, threshold, distance, peaks, a);
        lemma_peak_is_a_cell(grid, threshold, distance, peaks, b);
        let i = peaks[b].index(grid.width);
        lemma_later_cell_was_there(grid, peaks, distance, a, b, i);
        let cells = remaining(grid, peaks.take(a), distance);
        assert(cells[i] == grid.cells[i]);
        assert(next_peak(grid, threshold, distance, peaks.take(a), peaks[a]));
    }
}

/// No two peaks are near each other: either their columns or their rows are more than `distance`
/// apart.
pub proof fn lemma_peaks_are_apart(
    grid: Grid,
    threshold: Score,
    distance: nat,
    peaks: Seq<ExtremeLocation>,
    a: int,
    b: int,
)
    requires
        grid.wf(),
        threshold.lt(Score::infinity()),
        peak_list(grid, threshold, distance, peaks),
        0 <= a < peaks.len(),
        0 <= b < peaks.len(),
        a != b,
    ensures
        !near(peaks[a].at(), peaks[b].at(), distance),
{
    if a < b {
        lemma_peak_is_a_cell(grid, threshold, distance, peaks, b);
        assert(peaks.take(b)[a] == peaks[a]);
    } else {
        lemma_peak_is_a_cell(grid, threshold, distance, peaks, a);
        assert(peaks.take(a)[b] == peaks[b]);
    }
}

/// No good position is passed over: a cell that is not above the threshold is near some peak.
pub proof fn lemma_peaks_cover(
    grid: Grid,
    threshold: Score,
    distance: nat,
    peaks: Seq<ExtremeLocation>,
    i: int,
)
    requires
        peak_list(grid, threshold, distance, peaks),
        0 <= i < grid.cells.len(),
        !threshold.lt(grid.cells[i]),
    ensures
        exists|k: int|
            0 <= k < peaks.len() && near(
                (#[trigger] peaks[k]).at(),
                cell_at(grid.width, i),
                distance,
            ),
{
    assert(threshold.lt(remaining(grid, peaks, distance)[i]));
}

/// There is no peak exactly where every cell is above the threshold.
pub proof fn lemma_no_peak(
    grid: Grid,
    threshold: Score,
    distance: nat,
    peaks: Seq<ExtremeLocation>,
)
    requires
        grid.wf(),
        grid.cells.len() == 0 || threshold.lt(Score::infinity()),
        peak_list(grid, threshold, distance, peaks),
    ensures
        peaks.len() == 0 <==> forall|i: int|
            0 <= i < grid.cells.len() ==> threshold.lt(#[trigger] grid.cells[i]),
{
    if peaks.len() == 0 {
        assert forall|i: int| 0 <= i < grid.cells.len() implies threshold.lt(
            #[trigger] grid.cells[i],
        ) by {
            assert(threshold.lt(remaining(grid, peaks, distance)[i]));
        }
    } else {
        assert(next_peak(grid, threshold, distance, peaks.take(0), peaks[0]));
        lemma_peak_is_a_cell(grid, threshold, distance, peaks, 0);
    }
}

/// A grid, a threshold and a distance have one list of peaks: nothing else decides what is found.
pub proof fn lemma_peaks_are_determined(
    grid: Grid,
    threshold: Score,
    distance: nat,
    one: Seq<ExtremeLocation>,
    other: Seq<ExtremeLocation>,
)
    requires
        peak_list(grid, threshold, distance, one),
        peak_list(grid, threshold, distance, other),
    ensures
        one == other,
    decreases (if one.len() <= other.len() { 0int } else { 1int }),
{
    if one.len() <= other.len() {
        lemma_shorter_list_leads(grid, threshold, distance, one, other, one.len() as int);
        assert(one.take(one.len() as int) =~= one);
        if one.len() < other.len() {
            let next = other[one.len() as int];
            assert(next_peak(grid, threshold, distance, one, next));
            assert(threshold.lt(remaining(grid, one, distance)[next.index(grid.width)]));
        }
        assert(other.take(one.len() as int) =~= other);
    } else {
        lemma_peaks_are_determined(grid, threshold, distance, other, one);
    }
}

/// The first peak is the smallest score of the grid, at the same position, where that score is
/// below the largest finite number.
pub proof fn lemma_first_peak_is_minimum(
    grid: Grid,
    threshold: Score,
    distance: nat,
    peaks: Seq<ExtremeLocation>,
    value: Score,
    place: (u32, u32),
)
    requires
        grid.wf(),
        grid.ordered(),
        threshold.lt(Score::infinity()),
        peak_list(grid, threshold, distance, peaks),
        peaks.len() > 0,
        peaks[0].value.lt(Score::from_bits(LARGEST_BITS)),
        is_minimum(grid, value, place),
    ensures
        peaks[0].value == value,
        peaks[0].at() == (place.0 as int, place.1 as int),
{
    lemma_peak_is_a_cell(grid, threshold, distance, peaks, 0);
    let k = peaks[0].index(grid.width);
    let start = Score::from_bits(LARGEST_BITS);
    assert(grid.cells[k].lt(start));
    let i = choose|i: int|
        {
            &&& #[trigger] stands_at(grid, i, place)
            &&& grid.cells[i] == value
            &&& value.lt(start)
            &&& forall|j: int|
                0 <= j < grid.cells.len() ==> !(#[trigger] grid.cells[j]).lt(value)
            &&& forall|j: int|
                0 <= j < i ==> (#[trigger] grid.cells[j]).nan() || value.lt(grid.cells[j])
        };
    assert(next_peak(grid, threshold, distance, peaks.take(0), peaks[0]));
    assert(remaining(grid, peaks.take(0), distance) =~= grid.cells);
    assert(first_min(grid.cells, i));
    assert(first_min(grid.cells, k));
    assert(i == k);
}

/// Two lists of peaks agree as long as both go on.
proof fn lemma_shorter_list_leads(
    grid: Grid,
    threshold: Score,
    distance: nat,
    one: Seq<ExtremeLocation>,
    other: Seq<ExtremeLocation>,
    n: int,
)
    requires
        peak_list(grid, threshold, distance, one),
        peak_list(grid, threshold, distance, other),
        0 <= n <= one.len(),
        n <= other.len(),
    ensures
        one.take(n) == other.take(n),
    decreases n,
{
    if n > 0 {
        lemma_shorter_list_leads(grid, threshold, distance, one, other, n - 1);
        let found = one.take(n - 1);
        let a = one[n - 1];
        let b = other[n - 1];
        assert(next_peak(grid, threshold, distance, found, a));
        assert(next_peak(grid, threshold, distance, found, b));
        assert(a.index(grid.width) == b.index(grid.width));
        lemma_cell_index(grid.width, a.location.0 as int, a.location.1 as int);
        lemma_cell_index(grid.width, b.location.0 as int, b.location.1 as int);
        assert(a == b);
        assert(one.take(n) =~= found.push(a));
        assert(other.take(n) =~= other.take(n - 1).push(b));
    }
}

/// Finds the positions with the lowest scores, best first.
///
/// The lowest score is found, then everything within `min_distance` columns and rows of it is
/// struck out, and so on until only scores above `min_threshold` remain. `_max_threshold` plays no
/// part. Scores never fall along the list, so it needs no sorting.
///
/// The scores have to be ordered. The threshold has to be below infinity, the score of a cell that
/// was struck out. The distance has to be one that a signed offset can have.
pub fn find_multiple_extremes(
    result: &Image,
    min_threshold: Score,
    _max_threshold: Score,
    min_distance: usize,
) -> (extremes: Vec<ExtremeLocation>)
    requires
        result@.ordered(),
        result@.cells.len() == 0 || min_threshold.lt(Score::infinity()),
        min_distance <= isize::MAX,
    ensures
        peak_list(result@, min_threshold, min_distance as nat, extremes@),
        forall|a: int, b: int|
            0 <= a <= b < extremes@.len() ==> (#[trigger] extremes@[a]).value.key() <= (
            #[trigger] extremes@[b]).value.key(),
{
    proof {
        use_type_invariant(result);
    }
    let ghost grid = result@;
    let ghost distance = min_distance as nat;
    let width = result.width();
    let height = result.height();
    let mut cells: Vec<Score> = result.data().clone();
    let mut extremes: Vec<ExtremeLocation> = Vec::new();
    proof {
        assert(cells@ =~= grid.cells);
        assert(cells@ =~= remaining(grid, extremes@, distance));
    }
    if cells.len() == 0 {
        return extremes;
    }
    loop
        invariant
            grid == result@,
            grid.wf(),
            grid.ordered(),
            grid.width == width,
            grid.height == height,
            distance == min_distance,
            min_threshold.lt(Score::infinity()),
            cells@.len() > 0,
            cells@.len() == grid.cells.len(),
            cells@ == remaining(grid, extremes@, distance),
            forall|k: int|
                0 <= k < extremes@.len() ==> next_peak(
                    grid,
                    min_threshold,
                    distance,
                    extremes@.take(k),
                    #[trigger] extremes@[k],
                ),
        decreases open_cells(cells@, min_threshold),
    {
        let index = min_index(&cells);
        let value = cells[index];
        if min_threshold.is_below(value) {
            proof {
                assert(peak_list(grid, min_threshold, distance, extremes@)) by {
                    assert forall|i: int| 0 <= i < grid.cells.len() implies min_threshold.lt(
                        #[trigger] remaining(grid, extremes@, distance)[i],
                    ) by {
                        assert(cells@[index as int].key() <= cells@[i].key());
                    }
                }
                lemma_peaks_ascend(grid, min_threshold, distance, extremes@);
            }
            return extremes;
        }
        proof {
            lemma_cell_in_grid(grid, index as int);
        }
        let y: usize = index / width as usize;
        let x: usize = index % width as usize;
        let peak = ExtremeLocation { value, location: (x, y) };
        let ghost before = cells@;
        let ghost found = extremes@;
        extremes.push(peak);
        suppress(&mut cells, Ghost(grid), width, height, x, y, min_distance);
        proof {
            lemma_remaining_after_push(grid, found, peak, distance);
            assert(cells@ =~= remaining(grid, extremes@, distance));
            assert(near(peak.at(), cell_at(width, index as int), distance));
            lemma_striking_out_closes(before, cells@, min_threshold);
            assert(min_threshold.lt(cells@[index as int]));
            assert forall|k: int| 0 <= k < extremes@.len() implies next_peak(
                grid,
                min_threshold,
                distance,
                extremes@.take(k),
                #[trigger] extremes@[k],
            ) by {
                if k < found.len() {
                    assert(extremes@.take(k) =~= found.take(k));
                } else {
                    assert(extremes@.take(k) =~= found);
                }
            }
        }
    }
}

/// What is left of a list of peaks under a lower threshold is the peaks that are not above it.
proof fn lemma_leading_peaks(
    grid: Grid,
    lower: Score,
    threshold: Score,
    distance: nat,
    peaks: Seq<ExtremeLocation>,
    n: int,
)
    requires
        forall|i: int| 0 <= i < grid.cells.len() ==> !(#[trigger] grid.cells[i]).nan(),
        !lower.nan(),
        !threshold.lt(lower),
        threshold.lt(Score::infinity()),
        peak_list(grid, threshold, distance, peaks),
        0 <= n <= peaks.len(),
        forall|k: int| 0 <= k < n ==> !lower.lt((#[trigger] peaks[k]).value),
        n < peaks.len() ==> lower.lt(peaks[n].value),
    ensures
        peak_list(grid, lower, distance, peaks.take(n)),
{
    let fewer = peaks.take(n);
    assert forall|k: int| 0 <= k < fewer.len() implies next_peak(
        grid,
        lower,
        distance,
        fewer.take(k),
        #[trigger] fewer[k],
    ) by {
        assert(fewer.take(k) =~= peaks.take(k));
        assert(next_peak(grid, threshold, distance, peaks.take(k), peaks[k]));
    }
    let cells = remaining(grid, fewer, distance);
    assert forall|i: int| 0 <= i < grid.cells.len() implies lower.lt(#[trigger] cells[i]) by {
        if n < peaks.len() {
            assert(next_peak(grid, threshold, distance, fewer, peaks[n]));
            assert(peaks[n].value.key() <= cells[i].key());
        } else {
            assert(fewer =~= peaks);
            assert(threshold.lt(cells[i]));
        }
    }
}

/// How many of the peaks at the start of a list are not above a threshold.
spec fn leading(peaks: Seq<ExtremeLocation>, threshold: Score) -> int
    decreases peaks.len(),
{
    if peaks.len() == 0 || threshold.lt(peaks[0].value) {
        0
    } else {
        1 + leading(peaks.drop_first(), threshold)
    }
}

/// The leading peaks end at the first one above the threshold.
proof fn lemma_leading(peaks: Seq<ExtremeLocation>, threshold: Score)
    ensures
        0 <= leading(peaks, threshold) <= peaks.len(),
        forall|k: int|
            0 <= k < leading(peaks, threshold) ==> !threshold.lt((#[trigger] peaks[k]).value),
        leading(peaks, threshold) < peaks.len() ==> threshold.lt(
            peaks[leading(peaks, threshold)].value,
        ),
    decreases peaks.len(),
{
    if peaks.len() > 0 && !threshold.lt(peaks[0].value) {
        let rest = peaks.drop_first();
        lemma_leading(rest, threshold);
        assert forall|k: int| 0 <= k < leading(peaks, threshold) implies !threshold.lt(
            (#[trigger] peaks[k]).value,
        ) by {
            if k > 0 {
                assert(rest[k - 1] == peaks[k]);
            }
        }
    }
}

/// A lower threshold stops the search earlier and changes nothing else: its list is the start of
/// the other one, namely the peaks that are not above it.
pub proof fn lemma_lower_threshold_leads(
    grid: Grid,
    lower: Score,
    threshold: Score,
    distance: nat,
    fewer: Seq<ExtremeLocation>,
    peaks: Seq<ExtremeLocation>,
)
    requires
        grid.wf(),
        forall|i: int| 0 <= i < grid.cells.len() ==> !(#[trigger] grid.cells[i]).nan(),
        !lower.nan(),
        !threshold.lt(lower),
        threshold.lt(Score::infinity()),
        peak_list(grid, lower, distance, fewer),
        peak_list(grid, threshold, distance, peaks),
    ensures
        fewer.len() <= peaks.len(),
        fewer == peaks.take(fewer.len() as int),
        forall|k: int|
            0 <= k < peaks.len() ==> (k < fewer.len() <==> !lower.lt((#[trigger] peaks[k]).value)),
{
    let n = leading(peaks, lower);
    lemma_leading(peaks, lower);
    lemma_leading_peaks(grid, lower, threshold, distance, peaks, n);
    lemma_peaks_are_determined(grid, lower, distance, fewer, peaks.take(n));
    lemma_peaks_ascend(grid, threshold, distance, peaks);
    assert forall|k: int| 0 <= k < peaks.len() implies (k < fewer.len() <==> !lower.lt(
        (#[trigger] peaks[k]).value,
    )) by {
        lemma_peak_is_a_cell(grid, threshold, distance, peaks, k);
        if n <= k {
            assert(peaks[n].value.key() <= peaks[k].value.key());
        }
    }
}

/// The upper threshold plays no part: two searches that differ in nothing else find the same.
pub proof fn lemma_upper_threshold_plays_no_part(
    image: Image,
    min_threshold: Score,
    upper: Score,
    other_upper: Score,
    min_distance: usize,
    found: Vec<ExtremeLocation>,
    other_found: Vec<ExtremeLocation>,
)
    requires
        call_ensures(find_multiple_extremes, (&image, min_threshold, upper, min_distance), found),
        call_ensures(
            find_multiple_extremes,
            (&image, min_threshold, other_upper, min_distance),
            other_found,
        ),
    ensures
        found@ == other_found@,
{
    lemma_peaks_are_determined(
        image@,
        min_threshold,
        min_distance as nat,
        found@,
        other_found@,
    );
}

/// A list of peaks in plain differences of columns and rows.
///
/// Each peak lies in the grid, has the score of the cell where it lies, and is not above the
/// threshold. Every cell that is not above the threshold has a peak at most `distance` columns and
/// rows away. Of any two peaks the columns or the rows are more than `distance` apart. No peak is
/// better than one before it. And a cell that is better than a peak, or as good and before it, has
/// an earlier peak at most `distance` columns and rows away.
pub proof fn lemma_peaks_in_columns_and_rows(
    grid: Grid,
    threshold: Score,
    distance: int,
    peaks: Seq<ExtremeLocation>,
)
    requires
        distance >= 0,
        grid.cells.len() == grid.width * grid.height,
        grid.cells.len() < 2 || forall|i: int|
            0 <= i < grid.cells.len() ==> !(#[trigger] grid.cells[i]).nan(),
        grid.cells.len() == 0 || threshold.lt(Score { bits: 0x7f80_0000 }),
        peak_list(grid, threshold, distance as nat, peaks),
    ensures
        forall|k: int|
            0 <= k < peaks.len() ==> {
                let (x, y) = (#[trigger] peaks[k]).location;
                let at = y * grid.width + x;
                &&& x < grid.width
                &&& y < grid.height
                &&& 0 <= at < grid.cells.len()
                &&& peaks[k].value == grid.cells[at]
                &&& !threshold.lt(peaks[k].value)
            },
        forall|i: int|
            0 <= i < grid.cells.len() && !threshold.lt(#[trigger] grid.cells[i])
                ==> exists|k: int|
                {
                    &&& 0 <= k < peaks.len()
                    &&& -distance <= (#[trigger] peaks[k]).location.0 - i % (grid.width as int) <= distance
                    &&& -distance <= peaks[k].location.1 - i / (grid.width as int) <= distance
                },
        forall|a: int, b: int|
            0 <= a < b < peaks.len() ==> {
                ||| (#[trigger] peaks[a]).location.0 - (#[trigger] peaks[b]).location.0 > distance
                ||| peaks[b].location.0 - peaks[a].location.0 > distance
                ||| peaks[a].location.1 - peaks[b].location.1 > distance
                ||| peaks[b].location.1 - peaks[a].location.1 > distance
            },
        forall|a: int, b: int|
            0 <= a < b < peaks.len() ==> !(#[trigger] peaks[b]).value.lt((#[trigger] peaks[a]).value),
        forall|k: int, i: int|
            {
                &&& 0 <= k < peaks.len()
                &&& 0 <= i < grid.cells.len()
                &&& (#[trigger] grid.cells[i]).lt((#[trigger] peaks[k]).value) || (i < peaks[k].location.1
                    * grid.width + peaks[k].location.0 && !peaks[k].value.lt(grid.cells[i]))
            } ==> exists|m: int|
                {
                    &&& 0 <= m < k
                    &&& -distance <= (#[trigger] peaks[m]).location.0 - i % (grid.width as int) <= distance
                    &&& -distance <= peaks[m].location.1 - i / (grid.width as int) <= distance
                },
{
    let d = distance as nat;
    if grid.cells.len() > 0 {
        assert forall|k: int| 0 <= k < peaks.len() implies {
            let (x, y) = (#[trigger] peaks[k]).location;
            let at = y * grid.width + x;
            &&& x < grid.width
            &&& y < grid.height
            &&& 0 <= at < grid.cells.len()
            &&& peaks[k].value == grid.cells[at]
            &&& !threshold.lt(peaks[k].value)
        } by {
            lemma_peak_is_a_cell(grid, threshold, d, peaks, k);
        }
        assert forall|i: int|
            0 <= i < grid.cells.len() && !threshold.lt(
                #[trigger] grid.cells[i],
            ) implies exists|k: int|
            {
                &&& 0 <= k < peaks.len()
                &&& -distance <= (#[trigger] peaks[k]).location.0 - i % (grid.width as int)
                    <= distance
                &&& -distance <= peaks[k].location.1 - i / (grid.width as int) <= distance
            } by {
            lemma_peaks_cover(grid, threshold, d, peaks, i);
            let k = choose|k: int|
                0 <= k < peaks.len() && near((#[trigger] peaks[k]).at(), cell_at(grid.width, i), d);
            assert(-distance <= peaks[k].location.0 - i % (grid.width as int) <= distance);
        }
        assert forall|a: int, b: int| 0 <= a < b < peaks.len() implies {
            ||| (#[trigger] peaks[a]).location.0 - (#[trigger] peaks[b]).location.0 > distance
            ||| peaks[b].location.0 - peaks[a].location.0 > distance
            ||| peaks[a].location.1 - peaks[b].location.1 > distance
            ||| peaks[b].location.1 - peaks[a].location.1 > distance
        } by {
            lemma_peaks_are_apart(grid, threshold, d, peaks, a, b);
        }
        lemma_peaks_ascend(grid, threshold, d, peaks);
        assert forall|k: int, i: int|
            {
                &&& 0 <= k < peaks.len()
                &&& 0 <= i < grid.cells.len()
                &&& (#[trigger] grid.cells[i]).lt((#[trigger] peaks[k]).value) || (i
                    < peaks[k].location.1 * grid.width + peaks[k].location.0
                    && !peaks[k].value.lt(grid.cells[i]))
            } implies exists|m: int|
            {
                &&& 0 <= m < k
                &&& -distance <= (#[trigger] peaks[m]).location.0 - i % (grid.width as int)
                    <= distance
                &&& -distance <= peaks[m].location.1 - i / (grid.width as int) <= distance
            } by {
            let found = peaks.take(k);
            lemma_peak_is_a_cell(grid, threshold, d, peaks, k);
            assert(next_peak(grid, threshold, d, found, peaks[k]));
            let cells = remaining(grid, found, d);
            if !covered(grid.width, found, d, i) {
                assert(cells[i] == grid.cells[i]);
                assert(peaks[k].value.key() <= cells[i].key());
            }
            let m = choose|m: int|
                0 <= m < found.len() && near((#[trigger] found[m]).at(), cell_at(grid.width, i), d);
            assert(found[m] == peaks[m]);
            assert(-distance <= peaks[m].location.0 - i % (grid.width as int) <= distance);
        }
    } else if peaks.len() > 0 {
        assert(next_peak(grid, threshold, d, peaks.take(0), peaks[0]));
    }
}

/// What the search lists, whatever the size of the map and whatever the distance.
///
/// Each position lies in the map, has the score of the cell there, and is not above the threshold.
/// Every cell that is not above the threshold has a listed position at most `min_distance` columns
/// and rows away. Of any two listed positions the columns or the rows are more than `min_distance`
/// apart. Scores never fall along the list. And a cell that is better than a listed position, or
/// as good and before it, has a position that is listed earlier at most `min_distance` columns and
/// rows away.
pub proof fn lemma_search_lists_the_best_positions(
    map: Image,
    min_threshold: Score,
    max_threshold: Score,
    min_distance: usize,
    found: Vec<ExtremeLocation>,
)
    requires
        map@.cells.len() == map@.width * map@.height,
        map@.cells.len() < 2 || forall|i: int|
            0 <= i < map@.cells.len() ==> !(#[trigger] map@.cells[i]).nan(),
        map@.cells.len() == 0 || min_threshold.lt(Score { bits: 0x7f80_0000 }),
        call_ensures(
            find_multiple_extremes,
            (&map, min_threshold, max_threshold, min_distance),
            found,
        ),
    ensures
        forall|k: int|
            0 <= k < found@.len() ==> {
                let (x, y) = (#[trigger] found@[k]).location;
                let at = y * map@.width + x;
                &&& x < map@.width
                &&& y < map@.height
                &&& 0 <= at < map@.cells.len()
                &&& found@[k].value == map@.cells[at]
                &&& !min_threshold.lt(found@[k].value)
            },
        forall|i: int|
            0 <= i < map@.cells.len() && !min_threshold.lt(#[trigger] map@.cells[i])
                ==> exists|k: int|
                {
                    &&& 0 <= k < found@.len()
                    &&& -min_distance <= (#[trigger] found@[k]).location.0 - i % (map@.width as int) <= min_distance
                    &&& -min_distance <= found@[k].location.1 - i / (map@.width as int) <= min_distance
                },
        forall|a: int, b: int|
            0 <= a < b < found@.len() ==> {
                ||| (#[trigger] found@[a]).location.0 - (#[trigger] found@[b]).location.0 > min_distance
                ||| found@[b].location.0 - found@[a].location.0 > min_distance
                ||| found@[a].location.1 - found@[b].location.1 > min_distance
                ||| found@[b].location.1 - found@[a].location.1 > min_distance
            },
        forall|a: int, b: int|
            0 <= a < b < found@.len() ==> !(#[trigger] found@[b]).value.lt((#[trigger] found@[a]).value),
        forall|k: int, i: int|
            {
                &&& 0 <= k < found@.len()
                &&& 0 <= i < map@.cells.len()
                &&& (#[trigger] map@.cells[i]).lt((#[trigger] found@[k]).value) || (i < found@[k].location.1
                    * map@.width + found@[k].location.0 && !found@[k].value.lt(map@.cells[i]))
            } ==> exists|m: int|
                {
                    &&& 0 <= m < k
                    &&& -min_distance <= (#[trigger] found@[m]).location.0 - i % (map@.width as int) <= min_distance
                    &&& -min_distance <= found@[m].location.1 - i / (map@.width as int) <= min_distance
                },
{
    lemma_peaks_in_columns_and_rows(map@, min_threshold, min_distance as int, found@);
}

} // verus!
