//! The mathematical model of a pixel grid: a width, a height and the cells in
//! row-major order.

use vstd::prelude::*;

verus! {

/// A `width` by `height` grid of cells, stored row by row.
pub struct Grid<T> {
    pub width: nat,
    pub height: nat,
    pub cells: Seq<T>,
}

impl<T> Grid<T> {
    /// The grid holds exactly one cell per position.
    pub open spec fn wf(self) -> bool {
        self.cells.len() == self.width * self.height
    }

    /// `(x, y)` is a position of the grid.
    pub open spec fn inside(self, x: int, y: int) -> bool {
        0 <= x < self.width && 0 <= y < self.height
    }

    /// The cell at column `x`, row `y`.
    pub open spec fn at(self, x: int, y: int) -> T {
        self.cells[y * self.width + x]
    }

    /// The grid with the cell at `(x, y)` replaced by `value`.
    pub open spec fn put(self, x: int, y: int, value: T) -> Grid<T> {
        Grid { width: self.width, height: self.height, cells: self.cells.update(y * self.width + x, value) }
    }

    /// Both grids have the same width and height.
    pub open spec fn same_shape<U>(self, other: Grid<U>) -> bool {
        self.width == other.width && self.height == other.height
    }
}

/// `(x1, y1)` comes strictly before `(x2, y2)` when the grid is read row by row.
pub open spec fn scanned_before(x1: int, y1: int, x2: int, y2: int) -> bool {
    y1 < y2 || (y1 == y2 && x1 < x2)
}

/// Chebyshev distance of two positions: the larger of the two coordinate gaps.
pub open spec fn chebyshev(x1: int, y1: int, x2: int, y2: int) -> int {
    let dx = if x1 <= x2 { x2 - x1 } else { x1 - x2 };
    let dy = if y1 <= y2 { y2 - y1 } else { y1 - y2 };
    if dx >= dy { dx } else { dy }
}

/// A position inside a `width` by `height` grid has a row-major index below
/// `width * height`.
pub proof fn lemma_cell_in_range(width: int, height: int, x: int, y: int)
    requires
        0 <= x < width,
        0 <= y < height,
    ensures
        0 <= y * width + x < width * height,
        0 <= y * width,
        (y + 1) * width <= width * height,
{
    assert(0 <= y * width) by (nonlinear_arith)
        requires 0 <= y, 0 <= width;
    assert((y + 1) * width <= height * width) by (nonlinear_arith)
        requires y + 1 <= height, 0 <= width;
    assert((y + 1) * width == y * width + width) by (nonlinear_arith);
    assert(height * width == width * height) by (nonlinear_arith);
}

/// Two positions of one grid with the same row-major index are the same
/// position.
pub proof fn lemma_cell_unique(width: int, x1: int, y1: int, x2: int, y2: int)
    requires
        0 <= x1 < width,
        0 <= x2 < width,
        y1 * width + x1 == y2 * width + x2,
    ensures
        x1 == x2,
        y1 == y2,
{
    if y1 < y2 {
        assert((y1 + 1) * width <= y2 * width) by (nonlinear_arith)
            requires y1 + 1 <= y2, 0 <= width;
        assert((y1 + 1) * width == y1 * width + width) by (nonlinear_arith);
    } else if y2 < y1 {
        assert((y2 + 1) * width <= y1 * width) by (nonlinear_arith)
            requires y2 + 1 <= y1, 0 <= width;
        assert((y2 + 1) * width == y2 * width + width) by (nonlinear_arith);
    }
}

impl<T> Grid<T> {
    /// Replacing one cell changes that cell and no other.
    pub proof fn lemma_put(self, x: int, y: int, value: T)
        requires
            self.wf(),
            self.inside(x, y),
        ensures
            self.put(x, y, value).wf(),
            self.put(x, y, value).same_shape(self),
            self.put(x, y, value).at(x, y) == value,
            forall|i: int, j: int|
                self.inside(i, j) && !(i == x && j == y) ==> #[trigger] self.put(x, y, value).at(i, j)
                    == self.at(i, j),
    {
        lemma_cell_in_range(self.width as int, self.height as int, x, y);
        assert forall|i: int, j: int| self.inside(i, j) && !(i == x && j == y) implies #[trigger] self.put(
            x,
            y,
            value,
        ).at(i, j) == self.at(i, j) by {
            lemma_cell_in_range(self.width as int, self.height as int, i, j);
            if j * self.width + i == y * self.width + x {
                lemma_cell_unique(self.width as int, i, j, x, y);
            }
        }
    }
}

/// Every row-major index below `width * height` is the index of a position
/// of the grid.
pub proof fn lemma_index_is_cell(width: int, height: int, i: int)
    requires
        0 <= i < width * height,
        0 <= height,
        0 <= width,
    ensures
        0 <= i % width < width,
        0 <= i / width < height,
        i == (i / width) * width + i % width,
{
    assert(width > 0) by (nonlinear_arith)
        requires
            0 <= i < width * height,
            0 <= width,
    ;
    vstd::arithmetic::div_mod::lemma_fundamental_div_mod(i, width);
    vstd::arithmetic::div_mod::lemma_mod_pos_bound(i, width);
    let q = i / width;
    let r = i % width;
    assert(width * q == q * width) by (nonlinear_arith);
    assert(0 <= q < height) by (nonlinear_arith)
        requires
            i == q * width + r,
            0 <= r < width,
            0 <= i < width * height,
    ;
}

/// Two well-formed grids of one shape that agree at every position are the
/// same grid.
pub proof fn lemma_grid_ext<T>(a: Grid<T>, b: Grid<T>)
    requires
        a.wf(),
        b.wf(),
        a.same_shape(b),
        forall|x: int, y: int| a.inside(x, y) ==> #[trigger] a.at(x, y) == b.at(x, y),
    ensures
        a == b,
{
    assert forall|i: int| 0 <= i < a.cells.len() implies a.cells[i] == b.cells[i] by {
        lemma_index_is_cell(a.width as int, a.height as int, i);
        assert(a.inside(i % (a.width as int), i / (a.width as int)));
        assert(a.at(i % (a.width as int), i / (a.width as int)) == a.cells[i]);
    }
    assert(a.cells =~= b.cells);
}

/// Two sequences that hold the same values, each sequence strictly in the
/// order of one asymmetric relation, hold the same value at each index.
pub proof fn lemma_same_order<T>(a: Seq<T>, b: Seq<T>, before: spec_fn(T, T) -> bool, k: int)
    requires
        forall|x: T, y: T| #[trigger] before(x, y) ==> !before(y, x),
        forall|i: int, j: int| 0 <= i < j < a.len() ==> before(#[trigger] a[i], #[trigger] a[j]),
        forall|i: int, j: int| 0 <= i < j < b.len() ==> before(#[trigger] b[i], #[trigger] b[j]),
        forall|i: int| 0 <= i < a.len() ==> b.contains(#[trigger] a[i]),
        forall|i: int| 0 <= i < b.len() ==> a.contains(#[trigger] b[i]),
        0 <= k < a.len(),
    ensures
        k < b.len(),
        a[k] == b[k],
    decreases k,
{
    assert forall|j: int| 0 <= j < k implies j < b.len() && #[trigger] a[j] == b[j] by {
        lemma_same_order(a, b, before, j);
    }
    assert(b.contains(a[k]));
    let m = choose|m: int| 0 <= m < b.len() && b[m] == a[k];
    if m < k {
        assert(a[m] == b[m]);
        assert(before(a[m], a[k]));
    } else if m > k {
        assert(a.contains(b[k]));
        let n = choose|n: int| 0 <= n < a.len() && a[n] == b[k];
        assert(before(b[k], b[m]));
        if n < k {
            assert(a[n] == b[n]);
            assert(before(b[n], b[k]));
        } else if n > k {
            assert(before(a[k], a[n]));
        }
    }
}

/// Two sequences that hold the same values, each sequence strictly in the
/// order of one asymmetric relation, are the same sequence.
pub proof fn lemma_ordered_listing_unique<T>(a: Seq<T>, b: Seq<T>, before: spec_fn(T, T) -> bool)
    requires
        forall|x: T, y: T| #[trigger] before(x, y) ==> !before(y, x),
        forall|i: int, j: int| 0 <= i < j < a.len() ==> before(#[trigger] a[i], #[trigger] a[j]),
        forall|i: int, j: int| 0 <= i < j < b.len() ==> before(#[trigger] b[i], #[trigger] b[j]),
        forall|i: int| 0 <= i < a.len() ==> b.contains(#[trigger] a[i]),
        forall|i: int| 0 <= i < b.len() ==> a.contains(#[trigger] b[i]),
    ensures
        a == b,
{
    if a.len() > 0 {
        lemma_same_order(a, b, before, a.len() - 1);
    }
    if b.len() > 0 {
        lemma_same_order(b, a, before, b.len() - 1);
    }
    assert forall|k: int| 0 <= k < a.len() implies a[k] == b[k] by {
        lemma_same_order(a, b, before, k);
    }
    assert(a =~= b);
}

} // verus!
