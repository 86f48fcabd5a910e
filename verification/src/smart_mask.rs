//! The repair mask: inside each region, the pixels whose brightness departs
//! from the region's median brightness, grown by one pixel and cut back to
//! the regions.

use vstd::prelude::*;
use vstd::relations::{sorted_by, total_ordering};
use vstd::seq_lib::lemma_sorted_unique;
use crate::grid::{Grid, chebyshev, lemma_cell_in_range};
use crate::morphology::{dilate, marked, near_marked};
use crate::raster::{Mask, Raster, Rgb};
use crate::region::Region;

verus! {

/// How far a pixel's luma may lie from the median of its region before the
/// pixel is taken for part of the watermark.
pub const LUMA_THRESHOLD: u8 = 30;

/// Perceptual brightness of a colour: `0.299 R + 0.587 G + 0.114 B`, rounded
/// down.
pub open spec fn luma(c: Rgb) -> int {
    (299 * c.r + 587 * c.g + 114 * c.b) / 1000
}

/// Brightness of a colour, 0 to 255.
pub fn luma_of(c: Rgb) -> (l: u8)
    ensures
        l == luma(c),
{
    let weighted: u32 = 299 * (c.r as u32) + 587 * (c.g as u32) + 114 * (c.b as u32);
    (weighted / 1000) as u8
}

/// The lumas of row `y` from column `x0` up to, not including, `x1`.
pub open spec fn row_lumas(image: Grid<Rgb>, y: int, x0: int, x1: int) -> Seq<u8> {
    Seq::new((if x0 < x1 { x1 - x0 } else { 0 }) as nat, |i: int| luma(image.at(x0 + i, y)) as u8)
}

/// The lumas of the box of columns `x0..x1` and rows `y0..y1`, row by row.
pub open spec fn box_lumas(image: Grid<Rgb>, x0: int, x1: int, y0: int, y1: int) -> Seq<u8>
    decreases y1 - y0,
{
    if y1 <= y0 {
        Seq::empty()
    } else {
        box_lumas(image, x0, x1, y0, y1 - 1) + row_lumas(image, y1 - 1, x0, x1)
    }
}

/// The lumas of the pixels that `region` holds once clipped to the image.
pub open spec fn region_lumas(image: Grid<Rgb>, region: Region) -> Seq<u8> {
    box_lumas(
        image,
        region.x as int,
        region.end_x(image.width as int),
        region.y as int,
        region.end_y(image.height as int),
    )
}

/// The order of bytes by value.
pub open spec fn byte_leq() -> spec_fn(u8, u8) -> bool {
    |a: u8, b: u8| a <= b
}

/// The upper median of a non-empty sequence: the element at index `len / 2`
/// once the sequence is sorted. Two middle elements are not averaged.
pub open spec fn upper_median(values: Seq<u8>) -> u8
    recommends
        values.len() > 0,
{
    values.sort_by(byte_leq())[values.len() as int / 2]
}

/// The brightness that stands for the background of a region.
pub open spec fn baseline(image: Grid<Rgb>, region: Region) -> int {
    upper_median(region_lumas(image, region)) as int
}

/// The two lumas differ by more than the threshold.
pub open spec fn far_apart(a: int, b: int) -> bool {
    a - b > LUMA_THRESHOLD || b - a > LUMA_THRESHOLD
}

/// `(x, y)` lies in the clipped region and its luma departs from the region's
/// baseline by more than the threshold.
pub open spec fn stands_out(image: Grid<Rgb>, region: Region, x: int, y: int) -> bool {
    region.covers(image.width as int, image.height as int, x, y) && far_apart(
        luma(image.at(x, y)),
        baseline(image, region),
    )
}

/// `(x, y)` stands out in one of the first `n` regions.
pub open spec fn stands_out_in_any(image: Grid<Rgb>, regions: Seq<Region>, n: int, x: int, y: int) -> bool {
    exists|k: int| 0 <= k < n && #[trigger] stands_out(image, regions[k], x, y)
}

/// `(x, y)` lies in one of the first `n` regions, each clipped to a grid of
/// `width` by `height` cells.
pub open spec fn covered_by_any(regions: Seq<Region>, n: int, width: int, height: int, x: int, y: int) -> bool {
    exists|k: int| 0 <= k < n && #[trigger] regions[k].covers(width, height, x, y)
}

/// `(x, y)` lies in one of the regions, clipped to the image.
pub open spec fn in_any_region(image: Grid<Rgb>, regions: Seq<Region>, x: int, y: int) -> bool {
    covered_by_any(regions, regions.len() as int, image.width as int, image.height as int, x, y)
}

/// `(x, y)` is to be repaired: it lies in a region, and it or one of its
/// eight neighbours stands out in some region.
pub open spec fn needs_repair(image: Grid<Rgb>, regions: Seq<Region>, x: int, y: int) -> bool {
    &&& in_any_region(image, regions, x, y)
    &&& exists|i: int, j: int|
        image.inside(i, j) && chebyshev(x, y, i, j) <= 1 && #[trigger] stands_out_in_any(
            image,
            regions,
            regions.len() as int,
            i,
            j,
        )
}

/// `out` is the repair mask of `image` for `regions`: 255 where a pixel is
/// to be repaired, 0 elsewhere.
pub open spec fn is_smart_mask(image: Grid<Rgb>, regions: Seq<Region>, out: Grid<u8>) -> bool {
    &&& out.wf()
    &&& out.same_shape(image)
    &&& forall|x: int, y: int|
        image.inside(x, y) ==> #[trigger] out.at(x, y) == if needs_repair(image, regions, x, y) {
            255u8
        } else {
            0u8
        }
}

/// `slice::sort_unstable` on bytes.
///
/// Trusted: the sorted vector is ascending and holds the same bytes, each as
/// often as before.
#[verifier::external_body]
fn sort_bytes(values: &mut Vec<u8>)
    ensures
        final(values)@.to_multiset() == old(values)@.to_multiset(),
        final(values)@.len() == old(values)@.len(),
        forall|i: int, j: int| 0 <= i <= j < final(values)@.len() ==> final(values)@[i] <= final(values)@[j],
{
    values.sort_unstable();
}

/// The upper median of a non-empty list of lumas.
pub fn median_luma(values: Vec<u8>) -> (m: u8)
    requires
        values@.len() > 0,
    ensures
        m == upper_median(values@),
{
    let mut sorted = values;
    sort_bytes(&mut sorted);
    proof {
        let leq = byte_leq();
        assert(total_ordering(leq)) by {
            assert(vstd::relations::reflexive(leq));
            assert(vstd::relations::antisymmetric(leq));
            assert(vstd::relations::transitive(leq));
            assert(vstd::relations::strongly_connected(leq));
        }
        values@.lemma_sort_by_ensures(leq);
        assert(sorted_by(sorted@, leq));
        lemma_sorted_unique(sorted@, values@.sort_by(leq), leq);
    }
    sorted[sorted.len() / 2]
}

/// The lumas of the box of columns `x0..x1` and rows `y0..y1`, row by row.
fn collect_lumas(image: &Raster, x0: u32, x1: u32, y0: u32, y1: u32) -> (out: Vec<u8>)
    requires
        x0 <= x1 <= image@.width,
        y0 <= y1 <= image@.height,
    ensures
        out@ == box_lumas(image@, x0 as int, x1 as int, y0 as int, y1 as int),
{
    let mut out: Vec<u8> = Vec::new();
    let mut y: u32 = y0;
    while y < y1
        invariant
            x0 <= x1 <= image@.width,
            y0 <= y <= y1 <= image@.height,
            out@ == box_lumas(image@, x0 as int, x1 as int, y0 as int, y as int),
        decreases y1 - y,
    {
        let ghost above = out@;
        let mut x: u32 = x0;
        while x < x1
            invariant
                x0 <= x <= x1 <= image@.width,
                y0 <= y < y1 <= image@.height,
                out@ == above + row_lumas(image@, y as int, x0 as int, x as int),
            decreases x1 - x,
        {
            let l = luma_of(image.get_pixel(x, y));
            out.push(l);
            assert(out@ =~= above + row_lumas(image@, y as int, x0 as int, x + 1));
            x += 1;
        }
        y += 1;
    }
    out
}

/// Marks, inside the box of columns `x0..x1` and rows `y0..y1`, every pixel
/// whose luma is far from `median`. Other cells keep their value.
fn mark_outliers(image: &Raster, mask: &mut Mask, x0: u32, x1: u32, y0: u32, y1: u32, median: u8)
    requires
        old(mask)@.same_shape(image@),
        x0 <= x1 <= image@.width,
        y0 <= y1 <= image@.height,
    ensures
        final(mask)@.wf(),
        final(mask)@.same_shape(image@),
        forall|x: int, y: int|
            image@.inside(x, y) ==> #[trigger] final(mask)@.at(x, y) == if x0 <= x < x1 && y0 <= y < y1
                && far_apart(luma(image@.at(x, y)), median as int) {
                255u8
            } else {
                old(mask)@.at(x, y)
            },
{
    proof {
        use_type_invariant(&*mask);
        mask.lemma_well_formed();
    }
    let mut y: u32 = y0;
    while y < y1
        invariant
            x0 <= x1 <= image@.width,
            y0 <= y <= y1 <= image@.height,
            mask@.wf(),
            mask@.same_shape(image@),
            forall|i: int, j: int|
                image@.inside(i, j) ==> #[trigger] mask@.at(i, j) == if x0 <= i < x1 && y0 <= j < y
                    && far_apart(luma(image@.at(i, j)), median as int) {
                    255u8
                } else {
                    old(mask)@.at(i, j)
                },
        decreases y1 - y,
    {
        let mut x: u32 = x0;
        while x < x1
            invariant
                x0 <= x <= x1 <= image@.width,
                y0 <= y < y1 <= image@.height,
                mask@.wf(),
                mask@.same_shape(image@),
                forall|i: int, j: int|
                    image@.inside(i, j) ==> #[trigger] mask@.at(i, j) == if x0 <= i < x1 && (y0 <= j < y || (j
                        == y && i < x)) && far_apart(luma(image@.at(i, j)), median as int) {
                        255u8
                    } else {
                        old(mask)@.at(i, j)
                    },
            decreases x1 - x,
        {
            let l = luma_of(image.get_pixel(x, y));
            let apart = if l >= median { l - median > LUMA_THRESHOLD } else { median - l > LUMA_THRESHOLD };
            if apart {
                mask.put(x, y, 255);
            }
            x += 1;
        }
        y += 1;
    }
}

/// The mask of the pixels that stand out in some region, before it is grown.
pub fn threshold_regions(image: &Raster, regions: &[Region]) -> (raw: Mask)
    ensures
        raw@.wf(),
        raw@.same_shape(image@),
        forall|x: int, y: int|
            image@.inside(x, y) ==> #[trigger] raw@.at(x, y) == if stands_out_in_any(
                image@,
                regions@,
                regions@.len() as int,
                x,
                y,
            ) {
                255u8
            } else {
                0u8
            },
{
    let w = image.width();
    let h = image.height();
    let mut raw = Mask::new(w, h);
    proof {
        assert forall|x: int, y: int| image@.inside(x, y) implies #[trigger] raw@.at(x, y) == 0u8 by {
            lemma_cell_in_range(w as int, h as int, x, y);
        }
    }
    let mut k: usize = 0;
    while k < regions.len()
        invariant
            k <= regions@.len(),
            w == image@.width,
            h == image@.height,
            image@.wf(),
            raw@.wf(),
            raw@.same_shape(image@),
            forall|x: int, y: int|
                image@.inside(x, y) ==> #[trigger] raw@.at(x, y) == if stands_out_in_any(
                    image@,
                    regions@,
                    k as int,
                    x,
                    y,
                ) {
                    255u8
                } else {
                    0u8
                },
        decreases regions@.len() - k,
    {
        let region = regions[k];
        let x1 = region.clip_x(w);
        let y1 = region.clip_y(h);
        let ghost before = raw@;
        if region.x < x1 && region.y < y1 {
            let lumas = collect_lumas(image, region.x, x1, region.y, y1);
            assert(lumas@.len() > 0) by {
                assert(lumas@ == box_lumas(image@, region.x as int, x1 as int, region.y as int, y1 - 1)
                    + row_lumas(image@, y1 - 1, region.x as int, x1 as int));
            }
            let median = median_luma(lumas);
            mark_outliers(image, &mut raw, region.x, x1, region.y, y1, median);
            assert(median as int == baseline(image@, region));
        }
        proof {
            assert forall|x: int, y: int| image@.inside(x, y) implies #[trigger] raw@.at(x, y)
                == if stands_out_in_any(image@, regions@, k + 1, x, y) {
                255u8
            } else {
                0u8
            } by {
                region.lemma_covers(w as int, h as int, x, y);
                if stands_out(image@, regions@[k as int], x, y) {
                    assert(stands_out_in_any(image@, regions@, k + 1, x, y));
                }
                if stands_out_in_any(image@, regions@, k as int, x, y) {
                    let j = choose|j: int| 0 <= j < k && #[trigger] stands_out(image@, regions@[j], x, y);
                    assert(stands_out(image@, regions@[j], x, y));
                    assert(stands_out_in_any(image@, regions@, k + 1, x, y));
                }
            }
        }
        k += 1;
    }
    raw
}

/// Marks, inside the box of columns `x0..x1` and rows `y0..y1`, every cell
/// that `source` marks. Other cells keep their value.
fn copy_marked(source: &Mask, out: &mut Mask, x0: u32, x1: u32, y0: u32, y1: u32)
    requires
        old(out)@.same_shape(source@),
        x0 <= x1 <= source@.width,
        y0 <= y1 <= source@.height,
    ensures
        final(out)@.wf(),
        final(out)@.same_shape(source@),
        forall|x: int, y: int|
            source@.inside(x, y) ==> #[trigger] final(out)@.at(x, y) == if x0 <= x < x1 && y0 <= y < y1
                && source@.at(x, y) != 0 {
                255u8
            } else {
                old(out)@.at(x, y)
            },
{
    proof {
        use_type_invariant(&*out);
        out.lemma_well_formed();
    }
    let mut y: u32 = y0;
    while y < y1
        invariant
            x0 <= x1 <= source@.width,
            y0 <= y <= y1 <= source@.height,
            out@.wf(),
            out@.same_shape(source@),
            forall|i: int, j: int|
                source@.inside(i, j) ==> #[trigger] out@.at(i, j) == if x0 <= i < x1 && y0 <= j < y
                    && source@.at(i, j) != 0 {
                    255u8
                } else {
                    old(out)@.at(i, j)
                },
        decreases y1 - y,
    {
        let mut x: u32 = x0;
        while x < x1
            invariant
                x0 <= x <= x1 <= source@.width,
                y0 <= y < y1 <= source@.height,
                out@.wf(),
                out@.same_shape(source@),
                forall|i: int, j: int|
                    source@.inside(i, j) ==> #[trigger] out@.at(i, j) == if x0 <= i < x1 && (y0 <= j < y || (j
                        == y && i < x)) && source@.at(i, j) != 0 {
                        255u8
                    } else {
                        old(out)@.at(i, j)
                    },
            decreases x1 - x,
        {
            if source.get(x, y) > 0 {
                out.put(x, y, 255);
            }
            x += 1;
        }
        y += 1;
    }
}

/// Keeps of `source` what lies inside a region: the result is 255 where
/// `source` is marked and some clipped region holds the cell, 0 elsewhere.
pub fn clip_to_regions(source: &Mask, regions: &[Region]) -> (out: Mask)
    ensures
        out@.wf(),
        out@.same_shape(source@),
        forall|x: int, y: int|
            source@.inside(x, y) ==> #[trigger] out@.at(x, y) == if marked(source@, x, y) && covered_by_any(
                regions@,
                regions@.len() as int,
                source@.width as int,
                source@.height as int,
                x,
                y,
            ) {
                255u8
            } else {
                0u8
            },
{
    let w = source.width();
    let h = source.height();
    let mut out = Mask::new(w, h);
    proof {
        assert forall|x: int, y: int| source@.inside(x, y) implies #[trigger] out@.at(x, y) == 0u8 by {
            lemma_cell_in_range(w as int, h as int, x, y);
        }
    }
    let mut k: usize = 0;
    while k < regions.len()
        invariant
            k <= regions@.len(),
            w == source@.width,
            h == source@.height,
            source@.wf(),
            out@.wf(),
            out@.same_shape(source@),
            forall|x: int, y: int|
                source@.inside(x, y) ==> #[trigger] out@.at(x, y) == if marked(source@, x, y)
                    && covered_by_any(regions@, k as int, w as int, h as int, x, y) {
                    255u8
                } else {
                    0u8
                },
        decreases regions@.len() - k,
    {
        let region = regions[k];
        let x1 = region.clip_x(w);
        let y1 = region.clip_y(h);
        if region.x < x1 && region.y < y1 {
            copy_marked(source, &mut out, region.x, x1, region.y, y1);
        }
        proof {
            assert forall|x: int, y: int| source@.inside(x, y) implies #[trigger] out@.at(x, y) == if marked(
                source@,
                x,
                y,
            ) && covered_by_any(regions@, k + 1, w as int, h as int, x, y) {
                255u8
            } else {
                0u8
            } by {
                region.lemma_covers(w as int, h as int, x, y);
                if regions@[k as int].covers(w as int, h as int, x, y) {
                    assert(covered_by_any(regions@, k + 1, w as int, h as int, x, y));
                }
                if covered_by_any(regions@, k as int, w as int, h as int, x, y) {
                    let j = choose|j: int| 0 <= j < k && #[trigger] regions@[j].covers(w as int, h as int, x, y);
                    assert(regions@[j].covers(w as int, h as int, x, y));
                    assert(covered_by_any(regions@, k + 1, w as int, h as int, x, y));
                }
            }
        }
        k += 1;
    }
    out
}

/// Where `raw` marks exactly the pixels that stand out, a marked cell of
/// `raw` lies next to `(x, y)` exactly when a pixel that stands out does.
pub proof fn lemma_grown_marks(image: Grid<Rgb>, regions: Seq<Region>, raw: Grid<u8>, x: int, y: int)
    requires
        raw.same_shape(image),
        forall|i: int, j: int|
            image.inside(i, j) ==> #[trigger] raw.at(i, j) == if stands_out_in_any(
                image,
                regions,
                regions.len() as int,
                i,
                j,
            ) {
                255u8
            } else {
                0u8
            },
    ensures
        near_marked(raw, x, y, 1) <==> exists|i: int, j: int|
            image.inside(i, j) && chebyshev(x, y, i, j) <= 1 && #[trigger] stands_out_in_any(
                image,
                regions,
                regions.len() as int,
                i,
                j,
            ),
{
    if near_marked(raw, x, y, 1) {
        let (i, j) = choose|i: int, j: int| #[trigger] marked(raw, i, j) && chebyshev(x, y, i, j) <= 1;
        assert(image.inside(i, j) && chebyshev(x, y, i, j) <= 1 && stands_out_in_any(
            image,
            regions,
            regions.len() as int,
            i,
            j,
        ));
    }
    if exists|i: int, j: int|
        image.inside(i, j) && chebyshev(x, y, i, j) <= 1 && #[trigger] stands_out_in_any(
            image,
            regions,
            regions.len() as int,
            i,
            j,
        ) {
        let (i, j) = choose|i: int, j: int|
            image.inside(i, j) && chebyshev(x, y, i, j) <= 1 && #[trigger] stands_out_in_any(
                image,
                regions,
                regions.len() as int,
                i,
                j,
            );
        assert(marked(raw, i, j));
    }
}

/// A luma is a byte.
pub proof fn lemma_luma_is_byte(c: Rgb)
    ensures
        0 <= luma(c) <= 255,
{
}

/// The repair mask marks no pixel outside the union of the clipped regions.
pub proof fn lemma_mask_within_regions(image: Grid<Rgb>, regions: Seq<Region>, out: Grid<u8>, x: int, y: int)
    requires
        is_smart_mask(image, regions, out),
        marked(out, x, y),
    ensures
        in_any_region(image, regions, x, y),
{
}

/// The threshold is strict: a covered pixel stands out exactly when its luma
/// lies 31 or more from the region's baseline. A difference of 30 does not
/// count.
pub proof fn lemma_threshold_is_strict(image: Grid<Rgb>, region: Region, x: int, y: int)
    requires
        region.covers(image.width as int, image.height as int, x, y),
    ensures
        luma(image.at(x, y)) == baseline(image, region) + 30 ==> !stands_out(image, region, x, y),
        luma(image.at(x, y)) == baseline(image, region) - 30 ==> !stands_out(image, region, x, y),
        luma(image.at(x, y)) >= baseline(image, region) + 31 ==> stands_out(image, region, x, y),
        luma(image.at(x, y)) <= baseline(image, region) - 31 ==> stands_out(image, region, x, y),
        stands_out(image, region, x, y) <==> (luma(image.at(x, y)) - baseline(image, region) >= 31
            || baseline(image, region) - luma(image.at(x, y)) >= 31),
{
}

/// A pixel that stands out in one of the regions is marked in the repair
/// mask.
pub proof fn lemma_outlier_is_marked(
    image: Grid<Rgb>,
    regions: Seq<Region>,
    out: Grid<u8>,
    k: int,
    x: int,
    y: int,
)
    requires
        is_smart_mask(image, regions, out),
        0 <= k < regions.len(),
        stands_out(image, regions[k], x, y),
    ensures
        out.at(x, y) == 255,
{
    assert(regions[k].covers(image.width as int, image.height as int, x, y));
    assert(stands_out_in_any(image, regions, regions.len() as int, x, y));
    assert(chebyshev(x, y, x, y) == 0);
}

/// A pixel stays clear when neither it nor any of its eight neighbours stands
/// out in any region.
pub proof fn lemma_quiet_neighbourhood_is_clear(
    image: Grid<Rgb>,
    regions: Seq<Region>,
    out: Grid<u8>,
    x: int,
    y: int,
)
    requires
        is_smart_mask(image, regions, out),
        image.inside(x, y),
        forall|i: int, j: int, k: int|
            image.inside(i, j) && chebyshev(x, y, i, j) <= 1 && 0 <= k < regions.len() ==> !#[trigger] stands_out(
                image,
                regions[k],
                i,
                j,
            ),
    ensures
        out.at(x, y) == 0,
{
}

/// Every pixel of the clipped region has the same luma.
pub open spec fn uniform_within(image: Grid<Rgb>, region: Region) -> bool {
    forall|x1: int, y1: int, x2: int, y2: int|
        #![trigger image.at(x1, y1), image.at(x2, y2)]
        region.covers(image.width as int, image.height as int, x1, y1) && region.covers(
            image.width as int,
            image.height as int,
            x2,
            y2,
        ) ==> luma(image.at(x1, y1)) == luma(image.at(x2, y2))
}

/// Each entry of the lumas of a box is the luma of a pixel of that box.
proof fn lemma_box_lumas_members(image: Grid<Rgb>, x0: int, x1: int, y0: int, y1: int, i: int)
    requires
        0 <= i < box_lumas(image, x0, x1, y0, y1).len(),
    ensures
        exists|x: int, y: int|
            x0 <= x < x1 && y0 <= y < y1 && box_lumas(image, x0, x1, y0, y1)[i] == #[trigger] luma(
                image.at(x, y),
            ),
    decreases y1 - y0,
{
    if y1 > y0 {
        let above = box_lumas(image, x0, x1, y0, y1 - 1);
        let row = row_lumas(image, y1 - 1, x0, x1);
        if i < above.len() {
            lemma_box_lumas_members(image, x0, x1, y0, y1 - 1, i);
            let (x, y) = choose|x: int, y: int|
                x0 <= x < x1 && y0 <= y < y1 - 1 && above[i] == #[trigger] luma(image.at(x, y));
            assert(x0 <= x < x1 && y0 <= y < y1 && box_lumas(image, x0, x1, y0, y1)[i] == luma(
                image.at(x, y),
            ));
        } else {
            let x = x0 + (i - above.len());
            lemma_luma_is_byte(image.at(x, y1 - 1));
            assert(row[i - above.len()] == luma(image.at(x, y1 - 1)));
            assert(x0 <= x < x1 && y0 <= y1 - 1 < y1 && box_lumas(image, x0, x1, y0, y1)[i] == luma(
                image.at(x, y1 - 1),
            ));
        }
    }
}

/// The upper median of a non-empty sequence is one of its elements.
pub proof fn lemma_median_is_member(values: Seq<u8>)
    requires
        values.len() > 0,
    ensures
        values.contains(upper_median(values)),
{
    let leq = byte_leq();
    assert(total_ordering(leq)) by {
        assert(vstd::relations::reflexive(leq));
        assert(vstd::relations::antisymmetric(leq));
        assert(vstd::relations::transitive(leq));
        assert(vstd::relations::strongly_connected(leq));
    }
    values.lemma_sort_by_ensures(leq);
    let sorted = values.sort_by(leq);
    vstd::seq_lib::to_multiset_len(values);
    vstd::seq_lib::to_multiset_len(sorted);
    assert(sorted.contains(sorted[values.len() as int / 2]));
}

/// In a region of uniform luma no pixel stands out.
pub proof fn lemma_uniform_region_is_quiet(image: Grid<Rgb>, region: Region, x: int, y: int)
    requires
        uniform_within(image, region),
    ensures
        !stands_out(image, region, x, y),
{
    let w = image.width as int;
    let h = image.height as int;
    if region.covers(w, h, x, y) {
        let lumas = region_lumas(image, region);
        let x0 = region.x as int;
        let y0 = region.y as int;
        let x1 = region.end_x(w);
        let y1 = region.end_y(h);
        assert(lumas.len() > 0) by {
            assert(lumas == box_lumas(image, x0, x1, y0, y1 - 1) + row_lumas(image, y1 - 1, x0, x1));
        }
        lemma_median_is_member(lumas);
        let i = choose|i: int| 0 <= i < lumas.len() && lumas[i] == upper_median(lumas);
        lemma_box_lumas_members(image, x0, x1, y0, y1, i);
        let (px, py) = choose|px: int, py: int|
            x0 <= px < x1 && y0 <= py < y1 && lumas[i] == #[trigger] luma(image.at(px, py));
        region.lemma_covers(w, h, px, py);
        assert(luma(image.at(px, py)) == luma(image.at(x, y)));
    }
}

/// An image and a list of regions have exactly one repair mask.
pub proof fn lemma_smart_mask_unique(image: Grid<Rgb>, regions: Seq<Region>, first: Grid<u8>, second: Grid<u8>)
    requires
        is_smart_mask(image, regions, first),
        is_smart_mask(image, regions, second),
    ensures
        first == second,
{
    crate::grid::lemma_grid_ext(first, second);
}

/// No pixel outside every clipped region needs repair, and without regions
/// no pixel does.
pub proof fn lemma_outside_needs_no_repair(image: Grid<Rgb>, regions: Seq<Region>, x: int, y: int)
    ensures
        !in_any_region(image, regions, x, y) ==> !needs_repair(image, regions, x, y),
        regions.len() == 0 ==> !needs_repair(image, regions, x, y),
{
}

/// Every region is of uniform luma within the image.
pub open spec fn all_uniform(image: Grid<Rgb>, regions: Seq<Region>) -> bool {
    forall|k: int| 0 <= k < regions.len() ==> uniform_within(image, #[trigger] regions[k])
}

/// Over regions of uniform luma, and so over regions of one colour, no pixel
/// needs repair.
pub proof fn lemma_uniform_regions_are_quiet(image: Grid<Rgb>, regions: Seq<Region>)
    requires
        all_uniform(image, regions),
    ensures
        forall|x: int, y: int| !#[trigger] needs_repair(image, regions, x, y),
{
    assert forall|i: int, j: int| !#[trigger] stands_out_in_any(image, regions, regions.len() as int, i, j) by {
        if stands_out_in_any(image, regions, regions.len() as int, i, j) {
            let k = choose|k: int| 0 <= k < regions.len() && #[trigger] stands_out(image, regions[k], i, j);
            lemma_uniform_region_is_quiet(image, regions[k], i, j);
        }
    }
}

/// Over regions of uniform luma, and so over regions of one colour, the
/// repair mask is empty.
pub proof fn lemma_uniform_regions_need_no_repair(image: Grid<Rgb>, regions: Seq<Region>, out: Grid<u8>)
    requires
        is_smart_mask(image, regions, out),
        all_uniform(image, regions),
    ensures
        forall|x: int, y: int| image.inside(x, y) ==> #[trigger] out.at(x, y) == 0,
        forall|x: int, y: int| !#[trigger] marked(out, x, y),
{
    lemma_uniform_regions_are_quiet(image, regions);
}

} // verus!
