//! Binary dilation of a mask under the chessboard metric.

use vstd::prelude::*;
use crate::grid::{Grid, chebyshev, lemma_cell_in_range};
use crate::raster::Mask;

verus! {

/// `(x, y)` is a position of the mask and holds a non-zero value.
pub open spec fn marked(mask: Grid<u8>, x: int, y: int) -> bool {
    mask.inside(x, y) && mask.at(x, y) != 0
}

/// Every cell of the mask is 0 or 255.
pub open spec fn is_binary(mask: Grid<u8>) -> bool {
    forall|x: int, y: int| mask.inside(x, y) ==> #[trigger] mask.at(x, y) == 0 || mask.at(x, y) == 255
}

/// Some marked cell lies within Chebyshev distance `radius` of `(x, y)`.
pub open spec fn near_marked(mask: Grid<u8>, x: int, y: int, radius: int) -> bool {
    exists|i: int, j: int| #[trigger] marked(mask, i, j) && chebyshev(x, y, i, j) <= radius
}

/// `out` is `src` grown by `radius`: a cell is 255 where a marked cell of
/// `src` lies within that Chebyshev distance, and 0 elsewhere.
pub open spec fn is_dilation(src: Grid<u8>, radius: int, out: Grid<u8>) -> bool {
    &&& out.wf()
    &&& out.same_shape(src)
    &&& forall|x: int, y: int|
        src.inside(x, y) ==> #[trigger] out.at(x, y) == if near_marked(src, x, y, radius) {
            255u8
        } else {
            0u8
        }
}

/// `imageproc::morphology::dilate` with `Norm::LInf` on a copy of the mask.
///
/// Trusted: on a mask that holds at least one non-zero value, the outside
/// function sets to 255 every pixel within chessboard distance `radius` of a
/// non-zero pixel and to 0 every other pixel. It adds the two dimensions in
/// `u32`, and its distances saturate at 255, hence the two bounds.
#[verifier::external_body]
fn dilate_chessboard(mask: &Mask, radius: u8) -> (out: Mask)
    requires
        radius < 255,
        mask@.width + mask@.height <= u32::MAX,
        exists|i: int, j: int| #[trigger] marked(mask@, i, j),
    ensures
        is_dilation(mask@, radius as int, out@),
{
    let source = image::GrayImage::from_raw(mask.width(), mask.height(), mask.as_raw().clone()).unwrap();
    let grown = imageproc::morphology::dilate(&source, imageproc::distance_transform::Norm::LInf, radius);
    Mask::from_raw(mask.width(), mask.height(), grown.into_raw()).unwrap()
}

/// Whether the mask holds any marked cell.
pub fn any_marked(mask: &Mask) -> (found: bool)
    ensures
        found == exists|i: int, j: int| #[trigger] marked(mask@, i, j),
{
    let w = mask.width();
    let h = mask.height();
    let mut y: u32 = 0;
    while y < h
        invariant
            y <= h,
            w == mask@.width,
            h == mask@.height,
            forall|i: int, j: int| 0 <= i < w && 0 <= j < y ==> !#[trigger] marked(mask@, i, j),
        decreases h - y,
    {
        let mut x: u32 = 0;
        while x < w
            invariant
                x <= w,
                y < h,
                w == mask@.width,
                h == mask@.height,
                forall|i: int, j: int| 0 <= i < w && 0 <= j < y ==> !#[trigger] marked(mask@, i, j),
                forall|i: int| 0 <= i < x ==> !#[trigger] marked(mask@, i, y as int),
            decreases w - x,
        {
            if mask.get(x, y) != 0 {
                assert(marked(mask@, x as int, y as int));
                return true;
            }
            x += 1;
        }
        y += 1;
    }
    false
}

/// Grows the marked area of `mask` by `radius` pixels in every direction,
/// diagonals included. The result is strictly binary.
///
/// A mask without a mark is answered here: with nothing to measure from, the
/// outside function takes every distance for the sum of the two dimensions,
/// which on an image of a few pixels lies within the radius.
pub fn dilate(mask: &Mask, radius: u8) -> (out: Mask)
    requires
        radius < 255,
        mask@.width + mask@.height <= u32::MAX,
    ensures
        is_dilation(mask@, radius as int, out@),
{
    if any_marked(mask) {
        dilate_chessboard(mask, radius)
    } else {
        let out = Mask::new(mask.width(), mask.height());
        proof {
            assert forall|x: int, y: int| mask@.inside(x, y) implies #[trigger] out@.at(x, y) == 0u8 by {
                lemma_cell_in_range(out@.width as int, out@.height as int, x, y);
            }
        }
        out
    }
}

} // verus!
