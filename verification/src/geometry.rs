//! Cell and viewport sizes, and the arithmetic between pixels and rows.

use vstd::prelude::*;
use vstd::arithmetic::div_mod::{lemma_fundamental_div_mod, lemma_fundamental_div_mod_converse};
use vstd::arithmetic::mul::lemma_mul_is_commutative;

verus! {

/// Sizes of the viewport and of one cell of the grid, in pixels.
#[derive(Clone, Copy, Debug, PartialEq, Eq, Structural)]
pub struct SizeInfo {
    /// Width of the viewport.
    pub width: usize,
    /// Height of the viewport.
    pub height: usize,
    /// Width of one cell.
    pub cell_width: usize,
    /// Height of one cell.
    pub cell_height: usize,
    /// Empty space left of the grid, and right of it.
    pub padding_x: usize,
    /// Empty space above the grid, and below it.
    pub padding_y: usize,
    /// Number of rows that the viewport shows.
    pub screen_lines: usize,
    /// Number of columns that the viewport shows.
    pub columns: usize,
}

/// Number of cells of size `cell` that fit in `total` once `padding` is taken
/// from both ends.
pub open spec fn cells_within(total: int, padding: int, cell: int) -> int {
    (total - 2 * padding) / cell
}

impl SizeInfo {
    /// A cell has at least one pixel in each direction, and the padding
    /// leaves room for the grid.
    pub open spec fn wf(&self) -> bool {
        &&& self.cell_width > 0
        &&& self.cell_height > 0
        &&& 2 * self.padding_x <= self.width
        &&& 2 * self.padding_y <= self.height
    }

    /// Whether the sizes are those of a grid.
    pub fn is_usable(&self) -> (usable: bool)
        ensures
            usable == self.wf(),
    {
        self.cell_width > 0 && self.cell_height > 0 && self.padding_x <= self.width / 2
            && self.padding_y <= self.height / 2
    }

    /// Width of the grid: the viewport without its padding.
    pub open spec fn spec_view_width(&self) -> int {
        self.width - 2 * self.padding_x
    }

    /// Height of the grid: the viewport without its padding.
    pub open spec fn spec_view_height(&self) -> int {
        self.height - 2 * self.padding_y
    }

    /// Width of the grid: the viewport without its padding.
    pub fn view_width(&self) -> (w: usize)
        requires
            self.wf(),
        ensures
            w == self.spec_view_width(),
    {
        self.width - self.padding_x - self.padding_x
    }

    /// Height of the grid: the viewport without its padding.
    pub fn view_height(&self) -> (h: usize)
        requires
            self.wf(),
        ensures
            h == self.spec_view_height(),
    {
        self.height - self.padding_y - self.padding_y
    }

    pub fn new(
        width: usize,
        height: usize,
        cell_width: usize,
        cell_height: usize,
        padding_x: usize,
        padding_y: usize,
    ) -> (size: SizeInfo)
        requires
            cell_width > 0,
            cell_height > 0,
            2 * padding_x <= width,
            2 * padding_y <= height,
        ensures
            size.wf(),
            size.width == width,
            size.height == height,
            size.cell_width == cell_width,
            size.cell_height == cell_height,
            size.padding_x == padding_x,
            size.padding_y == padding_y,
            size.screen_lines == cells_within(height as int, padding_y as int, cell_height as int),
            size.columns == cells_within(width as int, padding_x as int, cell_width as int),
    {
        let screen_lines: usize = cells(height, padding_y, cell_height);
        let columns: usize = cells(width, padding_x, cell_width);
        SizeInfo {
            width,
            height,
            cell_width,
            cell_height,
            padding_x,
            padding_y,
            screen_lines,
            columns,
        }
    }
}

fn cells(total: usize, padding: usize, cell: usize) -> (n: usize)
    requires
        cell > 0,
        2 * padding <= total,
    ensures
        n == cells_within(total as int, padding as int, cell as int),
{
    (total - padding - padding) / cell
}

/// Number of rows of height `cell_height` that `height` pixels reach into:
/// the least `r` with `height <= r * cell_height`.
pub open spec fn rows_for(height: int, cell_height: int) -> int {
    (height + cell_height - 1) / cell_height
}

/// `rows_for` is the one number of rows whose last row the pixels reach
/// into without going past it.
pub proof fn lemma_rows_bounds(height: int, cell_height: int)
    requires
        cell_height > 0,
    ensures
        (rows_for(height, cell_height) - 1) * cell_height < height <= rows_for(height, cell_height)
            * cell_height,
{
    let n = height + cell_height - 1;
    lemma_fundamental_div_mod(n, cell_height);
    let q = n / cell_height;
    lemma_mul_is_commutative(cell_height, q);
    assert((q - 1) * cell_height == q * cell_height - cell_height) by (nonlinear_arith);
}

pub proof fn lemma_rows_unique(height: int, cell_height: int, rows: int)
    requires
        cell_height > 0,
        (rows - 1) * cell_height < height <= rows * cell_height,
    ensures
        rows_for(height, cell_height) == rows,
{
    let n = height + cell_height - 1;
    let r = n - (rows * cell_height);
    assert((rows - 1) * cell_height == rows * cell_height - cell_height) by (nonlinear_arith);
    assert(0 <= r < cell_height);
    lemma_mul_is_commutative(cell_height, rows);
    assert(n == rows * cell_height + r);
    lemma_fundamental_div_mod_converse(n, cell_height, rows, r);
}

/// Rows that `height` pixels reach into.
pub fn rows_of(height: usize, cell_height: usize) -> (rows: usize)
    requires
        cell_height > 0,
    ensures
        rows == rows_for(height as int, cell_height as int),
{
    let whole: usize = height / cell_height;
    let rest: usize = height % cell_height;
    proof {
        lemma_fundamental_div_mod(height as int, cell_height as int);
        lemma_mul_is_commutative(cell_height as int, whole as int);
        if rest == 0 {
            assert((whole - 1) * cell_height == whole * cell_height - cell_height)
                by (nonlinear_arith);
            lemma_rows_unique(height as int, cell_height as int, whole as int);
        } else {
            assert((whole + 1 - 1) * cell_height == whole * cell_height);
            assert((whole + 1) * cell_height == whole * cell_height + cell_height)
                by (nonlinear_arith);
            lemma_rows_unique(height as int, cell_height as int, whole + 1);
            assert(whole * cell_height <= height);
            assert(whole < usize::MAX) by (nonlinear_arith)
                requires
                    whole * cell_height < height,
                    height <= usize::MAX,
                    cell_height > 0,
            ;
        }
    }
    if rest == 0 {
        whole
    } else {
        whole + 1
    }
}

} // verus!
