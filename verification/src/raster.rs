//! Rectangular images of scores: grey frames and templates, and the maps that a matcher returns.
use crate::score::Score;
use vstd::prelude::*;

verus! {

/// What an image shows: `height` rows of `width` cells each, row after row.
#[verifier::ext_equal]
pub struct Grid {
    pub width: u32,
    pub height: u32,
    pub cells: Seq<Score>,
}

impl Grid {
    /// There is one cell for each column of each row.
    pub open spec fn wf(self) -> bool {
        self.cells.len() == self.width * self.height
    }

    /// Any two cells can be ordered: every cell is a number, or there is no second cell to hold
    /// one against.
    pub open spec fn ordered(self) -> bool {
        self.cells.len() <= 1 || forall|i: int|
            0 <= i < self.cells.len() ==> !(#[trigger] self.cells[i]).nan()
    }

    /// The grid whose cells have the given bits.
    pub open spec fn of_bits(width: u32, height: u32, bits: Seq<u32>) -> Grid {
        Grid { width, height, cells: bits.map_values(|b: u32| Score { bits: b }) }
    }
}

/// Column and row of cell `i`, where a row has `width` cells.
pub open spec fn cell_at(width: u32, i: int) -> (int, int) {
    (i % (width as int), i / (width as int))
}

/// A cell number and the column and row it stands for.
pub proof fn lemma_cell_index(width: u32, x: int, y: int)
    requires
        0 <= x < width,
    ensures
        cell_at(width, y * width + x) == (x, y),
{
    let w = width as int;
    vstd::arithmetic::div_mod::lemma_fundamental_div_mod_converse(y * w + x, w, y, x);
}

/// Every cell of a grid lies in one of its columns and rows.
pub proof fn lemma_cell_in_grid(grid: Grid, i: int)
    requires
        grid.wf(),
        0 <= i < grid.cells.len(),
    ensures
        0 < grid.width,
        0 <= cell_at(grid.width, i).0 < grid.width,
        0 <= cell_at(grid.width, i).1 < grid.height,
        cell_at(grid.width, i).1 * grid.width + cell_at(grid.width, i).0 == i,
{
    let w = grid.width as int;
    let h = grid.height as int;
    assert(w > 0) by (nonlinear_arith)
        requires
            w >= 0,
            0 <= i < w * h,
    ;
    vstd::arithmetic::div_mod::lemma_fundamental_div_mod(i, w);
    assert(0 <= i / w < h && (i / w) * w == w * (i / w)) by (nonlinear_arith)
        requires
            w > 0,
            0 <= i < w * h,
            i == w * (i / w) + i % w,
            0 <= i % w < w,
    ;
}

/// A column and a row of a grid make a cell of it.
pub proof fn lemma_cell_exists(grid: Grid, x: int, y: int)
    requires
        grid.wf(),
        0 <= x < grid.width,
        0 <= y < grid.height,
    ensures
        0 <= y * grid.width + x < grid.cells.len(),
{
    let w = grid.width as int;
    let h = grid.height as int;
    assert(0 <= y * w + x < w * h) by (nonlinear_arith)
        requires
            0 <= x < w,
            0 <= y < h,
    ;
}

/// An image: a grid of scores.
pub struct Image {
    data: Vec<Score>,
    width: u32,
    height: u32,
}

impl View for Image {
    type V = Grid;

    closed spec fn view(&self) -> Grid {
        Grid { width: self.width, height: self.height, cells: self.data@ }
    }
}

/// What an image shows, if there is one.
pub open spec fn shown(image: Option<Image>) -> Option<Grid> {
    match image {
        Some(i) => Some(i@),
        None => None,
    }
}

impl Image {
    /// Every image shows a well-formed grid.
    #[verifier::type_invariant]
    pub open spec fn wf(self) -> bool {
        self@.wf()
    }

    /// The image with the given cells, row after row. There is none if the number of cells is not
    /// `width * height`.
    pub fn new(data: Vec<Score>, width: u32, height: u32) -> (image: Option<Image>)
        ensures
            image is Some <==> data@.len() == width * height,
            image matches Some(i) ==> i@ == (Grid { width, height, cells: data@ }),
    {
        assert(0 <= width * height <= u32::MAX * u32::MAX) by (nonlinear_arith)
            requires
                0 <= width <= u32::MAX,
                0 <= height <= u32::MAX,
        ;
        if data.len() as u64 == width as u64 * height as u64 {
            Some(Image { data, width, height })
        } else {
            None
        }
    }

    /// The number of columns.
    pub fn width(&self) -> (width: u32)
        ensures
            width == self@.width,
    {
        self.width
    }

    /// The number of rows.
    pub fn height(&self) -> (height: u32)
        ensures
            height == self@.height,
    {
        self.height
    }

    /// The cells, row after row.
    pub fn data(&self) -> (data: &Vec<Score>)
        ensures
            data@ == self@.cells,
    {
        &self.data
    }

    /// Whether any two cells can be ordered.
    pub fn is_ordered(&self) -> (ordered: bool)
        ensures
            ordered == self@.ordered(),
    {
        if self.data.len() <= 1 {
            return true;
        }
        for i in 0..self.data.len()
            invariant
                self.data@.len() > 1,
                forall|j: int| 0 <= j < i ==> !(#[trigger] self.data@[j]).nan(),
        {
            if self.data[i].is_nan() {
                assert(self@.cells[i as int].nan());
                return false;
            }
        }
        true
    }
}

/// An image shows the cells that it was made of: there is one exactly for as many cells as columns
/// times rows, and it hands out the same width, the same height and the same cells.
pub proof fn lemma_image_shows_what_it_is_made_of(
    data: Vec<Score>,
    width: u32,
    height: u32,
    made: Option<Image>,
)
    requires
        call_ensures(Image::new, (data, width, height), made),
    ensures
        made is Some <==> data@.len() == width * height,
        made matches Some(image) ==> {
            &&& image@.width == width
            &&& image@.height == height
            &&& image@.cells == data@
            &&& forall|w: u32| call_ensures(Image::width, (&image,), w) ==> w == width
            &&& forall|h: u32| call_ensures(Image::height, (&image,), h) ==> h == height
            &&& forall|d: &Vec<Score>| call_ensures(Image::data, (&image,), d) ==> d@ == data@
        },
{
}

/// Cells can be ordered exactly if there are not two of them or if all of them are numbers.
pub proof fn lemma_numbers_can_be_ordered(image: Image, ordered: bool)
    requires
        call_ensures(Image::is_ordered, (&image,), ordered),
    ensures
        ordered <==> image@.cells.len() < 2 || forall|i: int|
            0 <= i < image@.cells.len() ==> ((#[trigger] image@.cells[i]).bits <= 0x7f80_0000
                || 0x8000_0000 <= image@.cells[i].bits <= 0xff80_0000),
{
    assert forall|i: int| 0 <= i < image@.cells.len() implies ((
    #[trigger] image@.cells[i]).nan() <==> !(image@.cells[i].bits <= 0x7f80_0000 || 0x8000_0000
        <= image@.cells[i].bits <= 0xff80_0000)) by {
        crate::score::lemma_bits_decide_the_order(image@.cells[i], image@.cells[i]);
    }
}

} // verus!
