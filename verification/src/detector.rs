//! Candidate regions: the bounding boxes of the connected blobs of a mask
//! that are large enough to matter.

use std::collections::HashMap;
use vstd::prelude::*;
use crate::grid::{Grid, lemma_cell_in_range, lemma_grid_ext, lemma_same_order, scanned_before};
use crate::grid::chebyshev;
use crate::morphology::{dilate, is_binary, is_dilation, marked, near_marked};
use crate::raster::{LabelMap, Mask, Raster, Rgb};
use crate::region::Region;

verus! {

broadcast use vstd::std_specs::hash::group_hash_axioms;

/// How far marks are grown before blobs are labelled, so that strokes which
/// nearly touch end up in one blob.
pub const BRIDGE_RADIUS: u8 = 3;

/// A connected blob of a mask: its label and the smallest rectangle that
/// holds its pixels.
#[derive(Debug, Clone, Copy, PartialEq, Eq, Structural)]
pub struct Component {
    pub label: u32,
    pub bounds: Region,
}

/// `(x, y)` is a position of the grid and holds `label`.
pub open spec fn carries(labels: Grid<u32>, label: u32, x: int, y: int) -> bool {
    labels.inside(x, y) && labels.at(x, y) == label
}

/// `bounds` is the smallest rectangle that holds every cell with `label`:
/// it holds them all, and a cell with `label` lies on each of its four
/// sides. Only a label that occurs in the grid has one.
pub open spec fn is_bounding_box(labels: Grid<u32>, label: u32, bounds: Region) -> bool {
    &&& forall|x: int, y: int| #[trigger] carries(labels, label, x, y) ==> bounds.contains(x, y)
    &&& exists|y: int| #[trigger] carries(labels, label, bounds.x as int, y)
    &&& exists|y: int| #[trigger] carries(labels, label, bounds.x + bounds.width - 1, y)
    &&& exists|x: int| #[trigger] carries(labels, label, x, bounds.y as int)
    &&& exists|x: int| #[trigger] carries(labels, label, x, bounds.y + bounds.height - 1)
}

/// Label `a` shows up earlier than label `b` when the grid is read row by
/// row: some cell with `a` comes before every cell with `b`.
pub open spec fn seen_before(labels: Grid<u32>, a: u32, b: u32) -> bool {
    exists|x: int, y: int| #[trigger]
        carries(labels, a, x, y) && forall|i: int, j: int| #[trigger]
            carries(labels, b, i, j) ==> scanned_before(x, y, i, j)
}

/// `comps` lists the components of a labelled grid: one entry for each
/// non-zero label that occurs, with the label's bounding box, in the order in
/// which the labels first show up row by row.
pub open spec fn is_component_list(labels: Grid<u32>, comps: Seq<Component>) -> bool {
    &&& forall|k: int|
        0 <= k < comps.len() ==> (#[trigger] comps[k]).label != 0 && is_bounding_box(
            labels,
            comps[k].label,
            comps[k].bounds,
        )
    &&& forall|j: int, k: int|
        #![trigger comps[j], comps[k]]
        0 <= j < k < comps.len() ==> seen_before(labels, comps[j].label, comps[k].label)
    &&& forall|x: int, y: int|
        labels.inside(x, y) && #[trigger] labels.at(x, y) != 0 ==> exists|k: int|
            0 <= k < comps.len() && (#[trigger] comps[k]).label == labels.at(x, y)
}

/// `bounds` is the bounding box of the cells with `label` that come before
/// position `(sx, sy)`.
spec fn bounds_so_far(labels: Grid<u32>, label: u32, bounds: Region, sx: int, sy: int) -> bool {
    &&& forall|x: int, y: int| #[trigger]
        carries(labels, label, x, y) && scanned_before(x, y, sx, sy) ==> bounds.contains(x, y)
    &&& exists|y: int| #[trigger]
        carries(labels, label, bounds.x as int, y) && scanned_before(bounds.x as int, y, sx, sy)
    &&& exists|y: int| #[trigger]
        carries(labels, label, bounds.x + bounds.width - 1, y) && scanned_before(
            bounds.x + bounds.width - 1,
            y,
            sx,
            sy,
        )
    &&& exists|x: int| #[trigger]
        carries(labels, label, x, bounds.y as int) && scanned_before(x, bounds.y as int, sx, sy)
    &&& exists|x: int| #[trigger]
        carries(labels, label, x, bounds.y + bounds.height - 1) && scanned_before(
            x,
            bounds.y + bounds.height - 1,
            sx,
            sy,
        )
}

/// What the scan knows when it stands at `(sx, sy)`: `comps` lists the
/// components of the cells read so far, and `index` finds each by its label.
spec fn scan_state(
    labels: Grid<u32>,
    comps: Seq<Component>,
    index: Map<u32, usize>,
    sx: int,
    sy: int,
) -> bool {
    &&& forall|k: int|
        0 <= k < comps.len() ==> (#[trigger] comps[k]).label != 0 && bounds_so_far(
            labels,
            comps[k].label,
            comps[k].bounds,
            sx,
            sy,
        )
    &&& forall|j: int, k: int|
        #![trigger comps[j], comps[k]]
        0 <= j < k < comps.len() ==> seen_before(labels, comps[j].label, comps[k].label)
    &&& forall|x: int, y: int|
        labels.inside(x, y) && scanned_before(x, y, sx, sy) && #[trigger] labels.at(x, y) != 0
            ==> index.contains_key(labels.at(x, y))
    &&& forall|l: u32| #[trigger]
        index.contains_key(l) ==> index[l] < comps.len() && comps[index[l] as int].label == l
    &&& forall|k: int|
        0 <= k < comps.len() ==> index.contains_key((#[trigger] comps[k]).label) && index[comps[k].label]
            == k
}

/// A box of cells read so far is not empty and lies inside the grid.
proof fn lemma_bounds_fit(labels: Grid<u32>, label: u32, bounds: Region, sx: int, sy: int)
    requires
        bounds_so_far(labels, label, bounds, sx, sy),
    ensures
        bounds.width >= 1,
        bounds.height >= 1,
        bounds.x + bounds.width <= labels.width,
        bounds.y + bounds.height <= labels.height,
{
    let y1 = choose|y: int| #[trigger]
        carries(labels, label, bounds.x as int, y) && scanned_before(bounds.x as int, y, sx, sy);
    assert(bounds.contains(bounds.x as int, y1));
    let y2 = choose|y: int| #[trigger]
        carries(labels, label, bounds.x + bounds.width - 1, y) && scanned_before(
            bounds.x + bounds.width - 1,
            y,
            sx,
            sy,
        );
    assert(labels.inside(bounds.x + bounds.width - 1, y2));
    let x2 = choose|x: int| #[trigger]
        carries(labels, label, x, bounds.y + bounds.height - 1) && scanned_before(
            x,
            bounds.y + bounds.height - 1,
            sx,
            sy,
        );
    assert(labels.inside(x2, bounds.y + bounds.height - 1));
}

/// Reading a cell that holds another label leaves a box as it is.
proof fn lemma_bounds_kept(labels: Grid<u32>, label: u32, bounds: Region, x: int, y: int)
    requires
        bounds_so_far(labels, label, bounds, x, y),
        !carries(labels, label, x, y),
    ensures
        bounds_so_far(labels, label, bounds, x + 1, y),
{
    let y1 = choose|j: int| #[trigger]
        carries(labels, label, bounds.x as int, j) && scanned_before(bounds.x as int, j, x, y);
    assert(carries(labels, label, bounds.x as int, y1) && scanned_before(bounds.x as int, y1, x + 1, y));
    let y2 = choose|j: int| #[trigger]
        carries(labels, label, bounds.x + bounds.width - 1, j) && scanned_before(
            bounds.x + bounds.width - 1,
            j,
            x,
            y,
        );
    assert(carries(labels, label, bounds.x + bounds.width - 1, y2) && scanned_before(
        bounds.x + bounds.width - 1,
        y2,
        x + 1,
        y,
    ));
    let x1 = choose|i: int| #[trigger]
        carries(labels, label, i, bounds.y as int) && scanned_before(i, bounds.y as int, x, y);
    assert(carries(labels, label, x1, bounds.y as int) && scanned_before(x1, bounds.y as int, x + 1, y));
    let x2 = choose|i: int| #[trigger]
        carries(labels, label, i, bounds.y + bounds.height - 1) && scanned_before(
            i,
            bounds.y + bounds.height - 1,
            x,
            y,
        );
    assert(carries(labels, label, x2, bounds.y + bounds.height - 1) && scanned_before(
        x2,
        bounds.y + bounds.height - 1,
        x + 1,
        y,
    ));
}

/// Reading a cell with the box's label grows the box to its hull with that
/// cell.
proof fn lemma_bounds_grown(labels: Grid<u32>, label: u32, bounds: Region, x: int, y: int)
    requires
        bounds_so_far(labels, label, bounds, x, y),
        carries(labels, label, x, y),
        labels.width <= u32::MAX,
        labels.height <= u32::MAX,
    ensures
        bounds_so_far(labels, label, bounds.hull(x, y), x + 1, y),
{
    lemma_bounds_fit(labels, label, bounds, x, y);
    let grown = bounds.hull(x, y);
    let y1 = choose|j: int| #[trigger]
        carries(labels, label, bounds.x as int, j) && scanned_before(bounds.x as int, j, x, y);
    let y2 = choose|j: int| #[trigger]
        carries(labels, label, bounds.x + bounds.width - 1, j) && scanned_before(
            bounds.x + bounds.width - 1,
            j,
            x,
            y,
        );
    let x1 = choose|i: int| #[trigger]
        carries(labels, label, i, bounds.y as int) && scanned_before(i, bounds.y as int, x, y);
    let x2 = choose|i: int| #[trigger]
        carries(labels, label, i, bounds.y + bounds.height - 1) && scanned_before(
            i,
            bounds.y + bounds.height - 1,
            x,
            y,
        );
    let wy1 = if x < bounds.x { y } else { y1 };
    assert(carries(labels, label, grown.x as int, wy1) && scanned_before(grown.x as int, wy1, x + 1, y));
    let wy2 = if x + 1 > bounds.x + bounds.width { y } else { y2 };
    assert(carries(labels, label, grown.x + grown.width - 1, wy2) && scanned_before(
        grown.x + grown.width - 1,
        wy2,
        x + 1,
        y,
    ));
    let wx1 = if y < bounds.y { x } else { x1 };
    assert(carries(labels, label, wx1, grown.y as int) && scanned_before(wx1, grown.y as int, x + 1, y));
    let wx2 = if y + 1 > bounds.y + bounds.height { x } else { x2 };
    assert(carries(labels, label, wx2, grown.y + grown.height - 1) && scanned_before(
        wx2,
        grown.y + grown.height - 1,
        x + 1,
        y,
    ));
}

/// The first cell read with a label is that label's box.
proof fn lemma_bounds_begun(labels: Grid<u32>, label: u32, x: int, y: int)
    requires
        carries(labels, label, x, y),
        labels.width <= u32::MAX,
        labels.height <= u32::MAX,
        forall|i: int, j: int| #[trigger] carries(labels, label, i, j) ==> !scanned_before(i, j, x, y),
    ensures
        bounds_so_far(labels, label, Region { x: x as u32, y: y as u32, width: 1, height: 1 }, x + 1, y),
{
    let first = Region { x: x as u32, y: y as u32, width: 1, height: 1 };
    assert(carries(labels, label, first.x as int, y) && scanned_before(first.x as int, y, x + 1, y));
    assert(carries(labels, label, first.x + first.width - 1, y) && scanned_before(
        first.x + first.width - 1,
        y,
        x + 1,
        y,
    ));
    assert(carries(labels, label, x, first.y as int) && scanned_before(x, first.y as int, x + 1, y));
    assert(carries(labels, label, x, first.y + first.height - 1) && scanned_before(
        x,
        first.y + first.height - 1,
        x + 1,
        y,
    ));
}

/// The scan passes a background cell.
proof fn lemma_scan_skip(labels: Grid<u32>, comps: Seq<Component>, index: Map<u32, usize>, x: int, y: int)
    requires
        scan_state(labels, comps, index, x, y),
        labels.inside(x, y),
        labels.at(x, y) == 0,
    ensures
        scan_state(labels, comps, index, x + 1, y),
{
    assert forall|k: int| 0 <= k < comps.len() implies bounds_so_far(
        labels,
        (#[trigger] comps[k]).label,
        comps[k].bounds,
        x + 1,
        y,
    ) by {
        lemma_bounds_kept(labels, comps[k].label, comps[k].bounds, x, y);
    }
}

/// The scan reads a cell of component `k`.
proof fn lemma_scan_extend(
    labels: Grid<u32>,
    comps: Seq<Component>,
    index: Map<u32, usize>,
    k: int,
    x: int,
    y: int,
)
    requires
        scan_state(labels, comps, index, x, y),
        labels.inside(x, y),
        labels.width <= u32::MAX,
        labels.height <= u32::MAX,
        index.contains_key(labels.at(x, y)),
        k == index[labels.at(x, y)],
    ensures
        scan_state(
            labels,
            comps.update(k, Component { label: labels.at(x, y), bounds: comps[k].bounds.hull(x, y) }),
            index,
            x + 1,
            y,
        ),
{
    let label = labels.at(x, y);
    let after = comps.update(k, Component { label, bounds: comps[k].bounds.hull(x, y) });
    assert(comps[k].label == label);
    assert forall|m: int| 0 <= m < after.len() implies (#[trigger] after[m]).label != 0 && bounds_so_far(
        labels,
        after[m].label,
        after[m].bounds,
        x + 1,
        y,
    ) by {
        assert(comps[m].label != 0);
        if m == k {
            lemma_bounds_grown(labels, label, comps[k].bounds, x, y);
        } else {
            lemma_bounds_kept(labels, comps[m].label, comps[m].bounds, x, y);
        }
    }
    assert forall|j: int, m: int| #![trigger after[j], after[m]] 0 <= j < m < after.len() implies seen_before(
        labels,
        after[j].label,
        after[m].label,
    ) by {
        assert(after[j].label == comps[j].label && after[m].label == comps[m].label);
    }
    assert forall|m: int| 0 <= m < after.len() implies index.contains_key((#[trigger] after[m]).label)
        && index[after[m].label] == m by {
        assert(after[m].label == comps[m].label);
    }
    assert forall|l: u32| #[trigger] index.contains_key(l) implies index[l] < after.len() && after[index[l] as int].label
        == l by {
        assert(comps[index[l] as int].label == l);
    }
}

/// The scan reads the first cell of a label that it has not met.
proof fn lemma_scan_append(labels: Grid<u32>, comps: Seq<Component>, index: Map<u32, usize>, x: int, y: int)
    requires
        scan_state(labels, comps, index, x, y),
        labels.inside(x, y),
        labels.width <= u32::MAX,
        labels.height <= u32::MAX,
        comps.len() <= usize::MAX,
        labels.at(x, y) != 0,
        !index.contains_key(labels.at(x, y)),
    ensures
        scan_state(
            labels,
            comps.push(
                Component {
                    label: labels.at(x, y),
                    bounds: Region { x: x as u32, y: y as u32, width: 1, height: 1 },
                },
            ),
            index.insert(labels.at(x, y), comps.len() as usize),
            x + 1,
            y,
        ),
{
    let label = labels.at(x, y);
    let first = Region { x: x as u32, y: y as u32, width: 1, height: 1 };
    let after = comps.push(Component { label, bounds: first });
    let after_index = index.insert(label, comps.len() as usize);
    assert forall|i: int, j: int| #[trigger] carries(labels, label, i, j) implies !scanned_before(i, j, x, y) by {
        if scanned_before(i, j, x, y) {
            assert(index.contains_key(labels.at(i, j)));
        }
    }
    assert forall|m: int| 0 <= m < after.len() implies (#[trigger] after[m]).label != 0 && bounds_so_far(
        labels,
        after[m].label,
        after[m].bounds,
        x + 1,
        y,
    ) by {
        if m < comps.len() {
            assert(comps[m].label != 0);
            assert(index.contains_key(comps[m].label));
            lemma_bounds_kept(labels, comps[m].label, comps[m].bounds, x, y);
        } else {
            lemma_bounds_begun(labels, label, x, y);
        }
    }
    assert forall|j: int, m: int| #![trigger after[j], after[m]] 0 <= j < m < after.len() implies seen_before(
        labels,
        after[j].label,
        after[m].label,
    ) by {
        if m < comps.len() {
            assert(seen_before(labels, comps[j].label, comps[m].label));
        } else {
            assert(comps[j].label != 0);
            let b = comps[j].bounds;
            let wy = choose|wy: int| #[trigger]
                carries(labels, comps[j].label, b.x as int, wy) && scanned_before(b.x as int, wy, x, y);
            assert(carries(labels, comps[j].label, b.x as int, wy));
            assert forall|i: int, jj: int| #[trigger] carries(labels, label, i, jj) implies scanned_before(
                b.x as int,
                wy,
                i,
                jj,
            ) by {
                assert(!scanned_before(i, jj, x, y));
            }
        }
    }
    assert forall|i: int, j: int|
        labels.inside(i, j) && scanned_before(i, j, x + 1, y) && #[trigger] labels.at(i, j) != 0 implies after_index.contains_key(
        labels.at(i, j),
    ) by {
        if scanned_before(i, j, x, y) {
            assert(index.contains_key(labels.at(i, j)));
        }
    }
    assert forall|l: u32| #[trigger] after_index.contains_key(l) implies after_index[l] < after.len()
        && after[after_index[l] as int].label == l by {
        if l != label {
            assert(index.contains_key(l));
            assert(comps[index[l] as int].label == l);
        }
    }
    assert forall|m: int| 0 <= m < after.len() implies after_index.contains_key((#[trigger] after[m]).label)
        && after_index[after[m].label] == m by {
        if m < comps.len() {
            assert(index.contains_key(comps[m].label));
        }
    }
}

/// The scan leaves a row for the next.
proof fn lemma_scan_next_row(labels: Grid<u32>, comps: Seq<Component>, index: Map<u32, usize>, y: int)
    requires
        scan_state(labels, comps, index, labels.width as int, y),
    ensures
        scan_state(labels, comps, index, 0, y + 1),
{
    let w = labels.width as int;
    assert forall|k: int| 0 <= k < comps.len() implies bounds_so_far(
        labels,
        (#[trigger] comps[k]).label,
        comps[k].bounds,
        0,
        y + 1,
    ) by {
        let label = comps[k].label;
        let b = comps[k].bounds;
        let y1 = choose|j: int| #[trigger]
            carries(labels, label, b.x as int, j) && scanned_before(b.x as int, j, w, y);
        assert(carries(labels, label, b.x as int, y1) && scanned_before(b.x as int, y1, 0, y + 1));
        let y2 = choose|j: int| #[trigger]
            carries(labels, label, b.x + b.width - 1, j) && scanned_before(b.x + b.width - 1, j, w, y);
        assert(carries(labels, label, b.x + b.width - 1, y2) && scanned_before(
            b.x + b.width - 1,
            y2,
            0,
            y + 1,
        ));
        let x1 = choose|i: int| #[trigger]
            carries(labels, label, i, b.y as int) && scanned_before(i, b.y as int, w, y);
        assert(carries(labels, label, x1, b.y as int) && scanned_before(x1, b.y as int, 0, y + 1));
        let x2 = choose|i: int| #[trigger]
            carries(labels, label, i, b.y + b.height - 1) && scanned_before(i, b.y + b.height - 1, w, y);
        assert(carries(labels, label, x2, b.y + b.height - 1) && scanned_before(
            x2,
            b.y + b.height - 1,
            0,
            y + 1,
        ));
    }
}

/// Once every row is read, the scan holds the components of the grid.
proof fn lemma_scan_done(labels: Grid<u32>, comps: Seq<Component>, index: Map<u32, usize>)
    requires
        scan_state(labels, comps, index, 0, labels.height as int),
    ensures
        is_component_list(labels, comps),
{
    let h = labels.height as int;
    assert forall|k: int| 0 <= k < comps.len() implies is_bounding_box(
        labels,
        (#[trigger] comps[k]).label,
        comps[k].bounds,
    ) by {
        let label = comps[k].label;
        let b = comps[k].bounds;
        let y1 = choose|j: int| #[trigger]
            carries(labels, label, b.x as int, j) && scanned_before(b.x as int, j, 0, h);
        assert(carries(labels, label, b.x as int, y1));
        let y2 = choose|j: int| #[trigger]
            carries(labels, label, b.x + b.width - 1, j) && scanned_before(b.x + b.width - 1, j, 0, h);
        assert(carries(labels, label, b.x + b.width - 1, y2));
        let x1 = choose|i: int| #[trigger]
            carries(labels, label, i, b.y as int) && scanned_before(i, b.y as int, 0, h);
        assert(carries(labels, label, x1, b.y as int));
        let x2 = choose|i: int| #[trigger]
            carries(labels, label, i, b.y + b.height - 1) && scanned_before(i, b.y + b.height - 1, 0, h);
        assert(carries(labels, label, x2, b.y + b.height - 1));
    }
    assert forall|x: int, y: int| labels.inside(x, y) && #[trigger] labels.at(x, y) != 0 implies exists|k: int|
        0 <= k < comps.len() && (#[trigger] comps[k]).label == labels.at(x, y) by {
        assert(scanned_before(x, y, 0, h));
        let l = labels.at(x, y);
        assert(index.contains_key(l));
        assert(comps[index[l] as int].label == l);
    }
}

/// The components of a labelled grid: for each non-zero label its bounding
/// box, in the order in which the labels first show up row by row.
pub fn components(labels: &LabelMap) -> (out: Vec<Component>)
    ensures
        is_component_list(labels@, out@),
{
    let w = labels.width();
    let h = labels.height();
    let mut out: Vec<Component> = Vec::new();
    let mut index: HashMap<u32, usize> = HashMap::new();
    let mut y: u32 = 0;
    while y < h
        invariant
            y <= h,
            w == labels@.width,
            h == labels@.height,
            scan_state(labels@, out@, index@, 0, y as int),
        decreases h - y,
    {
        let mut x: u32 = 0;
        while x < w
            invariant
                x <= w,
                y < h,
                w == labels@.width,
                h == labels@.height,
                scan_state(labels@, out@, index@, x as int, y as int),
            decreases w - x,
        {
            let label = labels.get(x, y);
            if label == 0 {
                proof {
                    lemma_scan_skip(labels@, out@, index@, x as int, y as int);
                }
            } else {
                let slot: Option<usize> = match index.get(&label) {
                    Some(k) => Some(*k),
                    None => None,
                };
                match slot {
                    Some(k) => {
                        proof {
                            lemma_bounds_fit(labels@, label, out@[k as int].bounds, x as int, y as int);
                            lemma_scan_extend(labels@, out@, index@, k as int, x as int, y as int);
                        }
                        let grown = out[k].bounds.extended(x, y);
                        out.set(k, Component { label, bounds: grown });
                    },
                    None => {
                        let slot = out.len();
                        proof {
                            lemma_scan_append(labels@, out@, index@, x as int, y as int);
                        }
                        index.insert(label, slot);
                        out.push(Component { label, bounds: Region { x, y, width: 1, height: 1 } });
                    },
                }
            }
            x += 1;
        }
        proof {
            lemma_scan_next_row(labels@, out@, index@, y as int);
        }
        y += 1;
    }
    proof {
        lemma_scan_done(labels@, out@, index@);
    }
    out
}

/// Of two labels, at most one shows up before the other.
proof fn lemma_seen_before_asymmetric(labels: Grid<u32>, a: u32, b: u32)
    requires
        seen_before(labels, a, b),
    ensures
        !seen_before(labels, b, a),
{
    if seen_before(labels, b, a) {
        let (x, y) = choose|x: int, y: int| #[trigger]
            carries(labels, a, x, y) && forall|i: int, j: int| #[trigger]
                carries(labels, b, i, j) ==> scanned_before(x, y, i, j);
        let (i, j) = choose|i: int, j: int| #[trigger]
            carries(labels, b, i, j) && forall|x: int, y: int| #[trigger]
                carries(labels, a, x, y) ==> scanned_before(i, j, x, y);
        assert(scanned_before(x, y, i, j));
        assert(scanned_before(i, j, x, y));
    }
}

/// A label has at most one bounding box.
pub proof fn lemma_bounding_box_unique(labels: Grid<u32>, label: u32, first: Region, second: Region)
    requires
        is_bounding_box(labels, label, first),
        is_bounding_box(labels, label, second),
    ensures
        first == second,
{
    let y1 = choose|y: int| #[trigger] carries(labels, label, first.x as int, y);
    assert(second.contains(first.x as int, y1));
    let y2 = choose|y: int| #[trigger] carries(labels, label, second.x as int, y);
    assert(first.contains(second.x as int, y2));
    let y3 = choose|y: int| #[trigger] carries(labels, label, first.x + first.width - 1, y);
    assert(second.contains(first.x + first.width - 1, y3));
    let y4 = choose|y: int| #[trigger] carries(labels, label, second.x + second.width - 1, y);
    assert(first.contains(second.x + second.width - 1, y4));
    let x1 = choose|x: int| #[trigger] carries(labels, label, x, first.y as int);
    assert(second.contains(x1, first.y as int));
    let x2 = choose|x: int| #[trigger] carries(labels, label, x, second.y as int);
    assert(first.contains(x2, second.y as int));
    let x3 = choose|x: int| #[trigger] carries(labels, label, x, first.y + first.height - 1);
    assert(second.contains(x3, first.y + first.height - 1));
    let x4 = choose|x: int| #[trigger] carries(labels, label, x, second.y + second.height - 1);
    assert(first.contains(x4, second.y + second.height - 1));
}

/// A label of one component list of a grid occurs in every other.
proof fn lemma_label_listed(labels: Grid<u32>, comps: Seq<Component>, k: int, other: Seq<Component>)
    requires
        is_component_list(labels, comps),
        is_component_list(labels, other),
        0 <= k < comps.len(),
    ensures
        exists|m: int| 0 <= m < other.len() && (#[trigger] other[m]).label == comps[k].label,
{
    let c = comps[k];
    let y = choose|y: int| #[trigger] carries(labels, c.label, c.bounds.x as int, y);
    assert(labels.at(c.bounds.x as int, y) != 0);
}

/// A labelled grid has exactly one component list.
pub proof fn lemma_component_list_unique(labels: Grid<u32>, a: Seq<Component>, b: Seq<Component>)
    requires
        is_component_list(labels, a),
        is_component_list(labels, b),
    ensures
        a == b,
{
    let la = Seq::new(a.len(), |i: int| a[i].label);
    let lb = Seq::new(b.len(), |i: int| b[i].label);
    let before = |x: u32, y: u32| seen_before(labels, x, y);
    assert forall|x: u32, y: u32| #[trigger] before(x, y) implies !before(y, x) by {
        lemma_seen_before_asymmetric(labels, x, y);
    }
    assert forall|i: int, j: int| 0 <= i < j < la.len() implies before(#[trigger] la[i], #[trigger] la[j]) by {
        assert(seen_before(labels, a[i].label, a[j].label));
    }
    assert forall|i: int, j: int| 0 <= i < j < lb.len() implies before(#[trigger] lb[i], #[trigger] lb[j]) by {
        assert(seen_before(labels, b[i].label, b[j].label));
    }
    assert forall|i: int| 0 <= i < la.len() implies lb.contains(#[trigger] la[i]) by {
        lemma_label_listed(labels, a, i, b);
        let m = choose|m: int| 0 <= m < b.len() && (#[trigger] b[m]).label == a[i].label;
        assert(lb[m] == la[i]);
    }
    assert forall|i: int| 0 <= i < lb.len() implies la.contains(#[trigger] lb[i]) by {
        lemma_label_listed(labels, b, i, a);
        let m = choose|m: int| 0 <= m < a.len() && (#[trigger] a[m]).label == b[i].label;
        assert(la[m] == lb[i]);
    }
    if la.len() > 0 {
        lemma_same_order(la, lb, before, la.len() - 1);
    }
    if lb.len() > 0 {
        lemma_same_order(lb, la, before, lb.len() - 1);
    }
    assert forall|k: int| 0 <= k < a.len() implies a[k] == b[k] by {
        lemma_same_order(la, lb, before, k);
        assert(la[k] == a[k].label && lb[k] == b[k].label);
        lemma_bounding_box_unique(labels, a[k].label, a[k].bounds, b[k].bounds);
    }
    assert(a =~= b);
}

/// The boxes of the components whose box holds at least `min_area` pixels,
/// in the order of the components.
pub open spec fn large_boxes(comps: Seq<Component>, min_area: int) -> Seq<Region>
    decreases comps.len(),
{
    if comps.len() == 0 {
        Seq::empty()
    } else {
        let rest = large_boxes(comps.drop_last(), min_area);
        if comps.last().bounds.area() >= min_area {
            rest.push(comps.last().bounds)
        } else {
            rest
        }
    }
}

/// Every box that the area filter keeps holds at least `min_area` pixels and
/// is the box of one of the components.
pub proof fn lemma_large_boxes(comps: Seq<Component>, min_area: int)
    ensures
        forall|k: int|
            0 <= k < large_boxes(comps, min_area).len() ==> (#[trigger] large_boxes(comps, min_area)[k]).area()
                >= min_area,
        forall|k: int|
            0 <= k < large_boxes(comps, min_area).len() ==> exists|m: int|
                0 <= m < comps.len() && (#[trigger] comps[m]).bounds == #[trigger] large_boxes(
                    comps,
                    min_area,
                )[k],
        forall|m: int|
            0 <= m < comps.len() && (#[trigger] comps[m]).bounds.area() >= min_area ==> large_boxes(
                comps,
                min_area,
            ).contains(comps[m].bounds),
    decreases comps.len(),
{
    if comps.len() > 0 {
        let front = comps.drop_last();
        let rest = large_boxes(front, min_area);
        let all = large_boxes(comps, min_area);
        lemma_large_boxes(front, min_area);
        assert forall|k: int| 0 <= k < all.len() implies exists|m: int|
            0 <= m < comps.len() && (#[trigger] comps[m]).bounds == #[trigger] all[k] by {
            if k < rest.len() {
                let m = choose|m: int| 0 <= m < front.len() && (#[trigger] front[m]).bounds == rest[k];
                assert(comps[m].bounds == all[k]);
            } else {
                assert(comps[comps.len() - 1].bounds == all[k]);
            }
        }
        assert forall|m: int| 0 <= m < comps.len() && (#[trigger] comps[m]).bounds.area() >= min_area implies all.contains(
            comps[m].bounds,
        ) by {
            if m < front.len() {
                assert(front[m] == comps[m]);
                let k = choose|k: int| 0 <= k < rest.len() && rest[k] == front[m].bounds;
                assert(all[k] == comps[m].bounds);
            } else {
                assert(all[all.len() - 1] == comps[m].bounds);
            }
        }
    }
}

/// Keeps the boxes of the components whose box holds at least `min_area`
/// pixels.
pub fn keep_large(comps: &Vec<Component>, min_area: u64) -> (out: Vec<Region>)
    ensures
        out@ == large_boxes(comps@, min_area as int),
{
    let mut out: Vec<Region> = Vec::new();
    let mut k: usize = 0;
    while k < comps.len()
        invariant
            k <= comps@.len(),
            out@ == large_boxes(comps@.take(k as int), min_area as int),
        decreases comps@.len() - k,
    {
        let bounds = comps[k].bounds;
        assert(bounds.width * bounds.height <= 0xFFFF_FFFF * 0xFFFF_FFFF) by (nonlinear_arith)
            requires
                0 <= bounds.width <= 0xFFFF_FFFF,
                0 <= bounds.height <= 0xFFFF_FFFF,
        ;
        let area: u64 = (bounds.width as u64) * (bounds.height as u64);
        assert(comps@.take(k + 1).drop_last() =~= comps@.take(k as int));
        if area >= min_area {
            out.push(bounds);
        }
        k += 1;
    }
    assert(comps@.take(comps@.len() as int) =~= comps@);
    out
}

/// `out` lists, in the order in which their components first show up row by
/// row, the bounding boxes of the components of `labels` that hold at least
/// `min_area` pixels.
pub open spec fn is_box_list(labels: Grid<u32>, min_area: int, out: Seq<Region>) -> bool {
    exists|comps: Seq<Component>| #[trigger]
        is_component_list(labels, comps) && out == large_boxes(comps, min_area)
}

/// The bounding boxes of the components of a labelled grid whose box holds
/// at least `min_area` pixels.
pub fn bounding_boxes(labels: &LabelMap, min_area: u64) -> (out: Vec<Region>)
    ensures
        is_box_list(labels@, min_area as int, out@),
        forall|k: int| 0 <= k < out@.len() ==> (#[trigger] out@[k]).area() >= min_area,
{
    let comps = components(labels);
    let out = keep_large(&comps, min_area);
    proof {
        lemma_large_boxes(comps@, min_area as int);
    }
    out
}

/// Each box of a box list is the bounding box of a non-zero label.
pub proof fn lemma_box_is_bounding(labels: Grid<u32>, min_area: int, out: Seq<Region>, k: int)
    requires
        is_box_list(labels, min_area, out),
        0 <= k < out.len(),
    ensures
        exists|label: u32| label != 0 && #[trigger] is_bounding_box(labels, label, out[k]),
{
    let comps = choose|comps: Seq<Component>| #[trigger]
        is_component_list(labels, comps) && out == large_boxes(comps, min_area);
    lemma_large_boxes(comps, min_area);
    let m = choose|m: int| 0 <= m < comps.len() && (#[trigger] comps[m]).bounds == out[k];
    assert(comps[m].label != 0 && is_bounding_box(labels, comps[m].label, out[k]));
}

/// A labelled grid and an area bound have exactly one list of boxes.
pub proof fn lemma_box_list_unique(labels: Grid<u32>, min_area: int, a: Seq<Region>, b: Seq<Region>)
    requires
        is_box_list(labels, min_area, a),
        is_box_list(labels, min_area, b),
    ensures
        a == b,
{
    let ca = choose|comps: Seq<Component>| #[trigger]
        is_component_list(labels, comps) && a == large_boxes(comps, min_area);
    let cb = choose|comps: Seq<Component>| #[trigger]
        is_component_list(labels, comps) && b == large_boxes(comps, min_area);
    lemma_component_list_unique(labels, ca, cb);
}

/// Luminance of a colour by the sRGB weights:
/// `(2126 R + 7152 G + 722 B) / 10000`, rounded down.
pub open spec fn gray_level(c: Rgb) -> int {
    (2126 * c.r + 7152 * c.g + 722 * c.b) / 10000
}

/// `out` holds the luminance of each pixel of `image`.
pub open spec fn is_grayscale(image: Grid<Rgb>, out: Grid<u8>) -> bool {
    &&& out.wf()
    &&& out.same_shape(image)
    &&& forall|x: int, y: int| image.inside(x, y) ==> #[trigger] out.at(x, y) == gray_level(image.at(x, y))
}

/// Luminance of a colour, 0 to 255.
pub fn gray_of(c: Rgb) -> (level: u8)
    ensures
        level == gray_level(c),
{
    let weighted: u32 = 2126 * (c.r as u32) + 7152 * (c.g as u32) + 722 * (c.b as u32);
    (weighted / 10000) as u8
}

/// The grayscale version of an image, from which edges are found.
pub fn grayscale(image: &Raster) -> (out: Mask)
    ensures
        is_grayscale(image@, out@),
{
    let w = image.width();
    let h = image.height();
    let mut out = Mask::new(w, h);
    let mut y: u32 = 0;
    while y < h
        invariant
            y <= h,
            w == image@.width,
            h == image@.height,
            out@.wf(),
            out@.same_shape(image@),
            forall|i: int, j: int|
                image@.inside(i, j) && j < y ==> #[trigger] out@.at(i, j) == gray_level(image@.at(i, j)),
        decreases h - y,
    {
        let mut x: u32 = 0;
        while x < w
            invariant
                x <= w,
                y < h,
                w == image@.width,
                h == image@.height,
                out@.wf(),
                out@.same_shape(image@),
                forall|i: int, j: int|
                    image@.inside(i, j) && scanned_before(i, j, x as int, y as int) ==> #[trigger] out@.at(
                        i,
                        j,
                    ) == gray_level(image@.at(i, j)),
            decreases w - x,
        {
            out.put(x, y, gray_of(image.get_pixel(x, y)));
            x += 1;
        }
        y += 1;
    }
    out
}

/// `out` marks a cell where `a` or `b` marks it: 255 there, 0 elsewhere.
pub open spec fn is_union(a: Grid<u8>, b: Grid<u8>, out: Grid<u8>) -> bool {
    &&& out.wf()
    &&& out.same_shape(a)
    &&& forall|x: int, y: int|
        a.inside(x, y) ==> #[trigger] out.at(x, y) == if a.at(x, y) != 0 || b.at(x, y) != 0 {
            255u8
        } else {
            0u8
        }
}

/// The mask that marks a pixel where either of two masks marks it. The
/// result has the shape of the first mask; the second must hold each of its
/// positions.
pub fn combine_masks(first: &Mask, second: &Mask) -> (out: Mask)
    requires
        first@.width == 0 || first@.height == 0 || (first@.width <= second@.width && first@.height
            <= second@.height),
    ensures
        is_union(first@, second@, out@),
{
    let w = first.width();
    let h = first.height();
    let _ = second.width();
    let mut out = Mask::new(w, h);
    proof {
        assert forall|x: int, y: int| first@.inside(x, y) implies #[trigger] out@.at(x, y) == 0u8 by {
            lemma_cell_in_range(w as int, h as int, x, y);
        }
    }
    let mut y: u32 = 0;
    while y < h
        invariant
            y <= h,
            w == first@.width,
            h == first@.height,
            w == 0 || h == 0 || (w <= second@.width && h <= second@.height),
            out@.wf(),
            out@.same_shape(first@),
            forall|i: int, j: int|
                first@.inside(i, j) ==> #[trigger] out@.at(i, j) == if j < y && (first@.at(i, j) != 0
                    || second@.at(i, j) != 0) {
                    255u8
                } else {
                    0u8
                },
        decreases h - y,
    {
        let mut x: u32 = 0;
        while x < w
            invariant
                x <= w,
                y < h,
                w == first@.width,
                h == first@.height,
                w == 0 || h == 0 || (w <= second@.width && h <= second@.height),
                out@.wf(),
                out@.same_shape(first@),
                forall|i: int, j: int|
                    first@.inside(i, j) ==> #[trigger] out@.at(i, j) == if scanned_before(
                        i,
                        j,
                        x as int,
                        y as int,
                    ) && (first@.at(i, j) != 0 || second@.at(i, j) != 0) {
                        255u8
                    } else {
                        0u8
                    },
            decreases w - x,
        {
            if first.get(x, y) > 0 || second.get(x, y) > 0 {
                out.put(x, y, 255);
            }
            x += 1;
        }
        y += 1;
    }
    out
}

/// The labels that `imageproc::region_labelling::connected_components` gives
/// to the cells of a `width` by `height` mask under eight-way connectivity
/// with 0 as the background, row by row.
pub uninterp spec fn component_labels(width: nat, height: nat, cells: Seq<u8>) -> Seq<u32>;

/// The labelled grid of a mask: one label per cell, 0 on the clear cells.
/// A mask of two cells or more is labelled by the outside function; the one
/// cell of a smaller mask is its own blob, with label 1.
pub open spec fn labelled(mask: Grid<u8>) -> Grid<u32> {
    Grid {
        width: mask.width,
        height: mask.height,
        cells: if mask.width * mask.height >= 2 {
            component_labels(mask.width, mask.height, mask.cells)
        } else {
            Seq::new(mask.cells.len(), |i: int| if mask.cells[i] != 0 { 1u32 } else { 0u32 })
        },
    }
}

/// `labels` labels the cells of `mask` so that clear cells, and no others,
/// have label 0, and marked cells that touch, diagonals included, share
/// their label.
pub open spec fn labels_follow_marks(mask: Grid<u8>, labels: Grid<u32>) -> bool {
    &&& labels.wf()
    &&& labels.same_shape(mask)
    &&& forall|x: int, y: int| mask.inside(x, y) ==> (#[trigger] labels.at(x, y) == 0 <==> mask.at(x, y) == 0)
    &&& forall|x: int, y: int, i: int, j: int|
        marked(mask, x, y) && marked(mask, i, j) && chebyshev(x, y, i, j) == 1 ==> #[trigger] labels.at(x, y)
            == #[trigger] labels.at(i, j)
}

/// `imageproc::region_labelling::connected_components` with
/// `Connectivity::Eight` and background `Luma([0])`, on a binary mask of two
/// cells or more.
///
/// Trusted: the outside function returns one label per pixel, 0 exactly for
/// the pixels that are 0 in the mask; it gives one label to two marked
/// pixels of equal value that touch; and the labels depend on the mask
/// alone.
///
/// The outside function panics on 2^32 pixels or more, and where a label
/// reaches the number of pixels: its union-find holds one element per pixel
/// and is indexed by label. On a binary mask of two cells or more no label
/// gets that far: a clear pixel takes no label, and in a mask without a
/// clear pixel the second pixel takes the label of the first.
#[verifier::external_body]
fn label_components(mask: &Mask) -> (labels: LabelMap)
    requires
        2 <= mask@.width * mask@.height < 0x1_0000_0000,
        is_binary(mask@),
    ensures
        labels@.cells == component_labels(mask@.width, mask@.height, mask@.cells),
        labels_follow_marks(mask@, labels@),
{
    let source = image::GrayImage::from_raw(mask.width(), mask.height(), mask.as_raw().clone()).unwrap();
    let labels = imageproc::region_labelling::connected_components(
        &source,
        imageproc::region_labelling::Connectivity::Eight,
        image::Luma([0u8]),
    );
    LabelMap::from_raw(mask.width(), mask.height(), labels.into_raw()).unwrap()
}

/// The labels of a mask of at most one cell: 1 for a marked cell, 0 for a
/// clear one.
fn label_small(mask: &Mask) -> (labels: LabelMap)
    requires
        mask@.width * mask@.height <= 1,
    ensures
        labels@ == labelled(mask@),
        labels_follow_marks(mask@, labels@),
{
    let w = mask.width();
    let h = mask.height();
    let mut data: Vec<u32> = Vec::new();
    if w == 1 && h == 1 {
        let label: u32 = if mask.get(0, 0) != 0 { 1 } else { 0 };
        assert(mask@.at(0, 0) == mask@.cells[0]);
        assert(mask@.cells.len() == 1) by (nonlinear_arith)
            requires
                mask@.cells.len() == mask@.width * mask@.height,
                mask@.width == 1,
                mask@.height == 1,
        ;
        data.push(label);
    }
    proof {
        lemma_small_grid(w as int, h as int);
    }
    assert(data@ =~= labelled(mask@).cells);
    let labels = LabelMap::from_raw(w, h, data).unwrap();
    proof {
        assert forall|x: int, y: int| mask@.inside(x, y) implies (#[trigger] labels@.at(x, y) == 0 <==> mask@.at(
            x,
            y,
        ) == 0) by {
            assert(x == 0 && y == 0);
            assert(labels@.at(0, 0) == labels@.cells[0]);
        }
    }
    labels
}

/// A grid of at most one cell is empty or has the one position `(0, 0)`.
proof fn lemma_small_grid(w: int, h: int)
    requires
        0 <= w,
        0 <= h,
        w * h <= 1,
    ensures
        (w == 1 && h == 1) || w * h == 0,
        (w >= 1 && h >= 1) ==> (w == 1 && h == 1),
{
    assert((w == 1 && h == 1) || w * h == 0) by (nonlinear_arith)
        requires
            0 <= w,
            0 <= h,
            w * h <= 1,
    ;
    assert(w >= 1 && h >= 1 ==> w * h >= 1) by (nonlinear_arith);
}

/// `bounds` is not empty, lies inside the mask and holds a marked cell.
pub open spec fn holds_mark(mask: Grid<u8>, bounds: Region) -> bool {
    &&& bounds.width >= 1
    &&& bounds.height >= 1
    &&& bounds.x + bounds.width <= mask.width
    &&& bounds.y + bounds.height <= mask.height
    &&& exists|x: int, y: int| #[trigger] marked(mask, x, y) && bounds.contains(x, y)
}

/// Where labels follow the marks of a mask, the bounding box of a non-zero
/// label lies inside the mask and holds a marked cell.
proof fn lemma_box_holds_mark(mask: Grid<u8>, labels: Grid<u32>, label: u32, bounds: Region)
    requires
        labels_follow_marks(mask, labels),
        label != 0,
        is_bounding_box(labels, label, bounds),
    ensures
        holds_mark(mask, bounds),
{
    let y1 = choose|y: int| #[trigger] carries(labels, label, bounds.x as int, y);
    let y2 = choose|y: int| #[trigger] carries(labels, label, bounds.x + bounds.width - 1, y);
    let x2 = choose|x: int| #[trigger] carries(labels, label, x, bounds.y + bounds.height - 1);
    assert(bounds.contains(bounds.x as int, y1));
    assert(labels.inside(bounds.x + bounds.width - 1, y2));
    assert(labels.inside(x2, bounds.y + bounds.height - 1));
    assert(marked(mask, bounds.x as int, y1));
}

/// Where labels follow the marks of a mask, every box of a box list lies
/// inside the mask and holds a marked cell.
proof fn lemma_boxes_hold_marks(mask: Grid<u8>, labels: Grid<u32>, min_area: int, out: Seq<Region>)
    requires
        labels_follow_marks(mask, labels),
        is_box_list(labels, min_area, out),
    ensures
        forall|k: int| 0 <= k < out.len() ==> holds_mark(mask, #[trigger] out[k]),
{
    assert forall|k: int| 0 <= k < out.len() implies holds_mark(mask, #[trigger] out[k]) by {
        lemma_box_is_bounding(labels, min_area, out, k);
        let label = choose|label: u32| label != 0 && #[trigger] is_bounding_box(labels, label, out[k]);
        lemma_box_holds_mark(mask, labels, label, out[k]);
    }
}

/// The labelled grid of a binary mask.
fn label_mask(mask: &Mask) -> (labels: LabelMap)
    requires
        mask@.width * mask@.height < 0x1_0000_0000,
        is_binary(mask@),
    ensures
        labels@ == labelled(mask@),
        labels_follow_marks(mask@, labels@),
{
    let w = mask.width();
    let h = mask.height();
    assert(w * h <= 0xFFFF_FFFF * 0xFFFF_FFFF) by (nonlinear_arith)
        requires
            0 <= w <= 0xFFFF_FFFF,
            0 <= h <= 0xFFFF_FFFF,
    ;
    let cells: u64 = (w as u64) * (h as u64);
    if cells >= 2 {
        let labels = label_components(mask);
        assert(labels@ == labelled(mask@));
        labels
    } else {
        label_small(mask)
    }
}

/// The bounding boxes of the blobs of a binary mask whose box holds at least
/// `min_area` pixels, in the order in which the blobs first show up row by
/// row. A blob is a set of marked pixels that hang together through
/// neighbours, diagonals included. Each box lies inside the mask and holds a
/// marked pixel.
pub fn find_regions(mask: &Mask, min_area: u64) -> (out: Vec<Region>)
    requires
        mask@.width * mask@.height < 0x1_0000_0000,
        is_binary(mask@),
    ensures
        is_box_list(labelled(mask@), min_area as int, out@),
        labels_follow_marks(mask@, labelled(mask@)),
        forall|k: int| 0 <= k < out@.len() ==> (#[trigger] out@[k]).area() >= min_area,
        forall|k: int| 0 <= k < out@.len() ==> holds_mark(mask@, #[trigger] out@[k]),
{
    let labels = label_mask(mask);
    let out = bounding_boxes(&labels, min_area);
    proof {
        lemma_boxes_hold_marks(mask@, labels@, min_area as int, out@);
    }
    out
}

/// `bounds` holds every cell of the grid within the bridge radius of
/// `(x, y)`.
pub open spec fn holds_window(grid: Grid<u8>, bounds: Region, x: int, y: int) -> bool {
    forall|i: int, j: int|
        grid.inside(i, j) && chebyshev(x, y, i, j) <= BRIDGE_RADIUS ==> #[trigger] bounds.contains(i, j)
}

/// Where every cell within `radius` of `(x, y)` is marked, each of them has
/// the label of `(x, y)`.
proof fn lemma_window_one_label(mask: Grid<u8>, labels: Grid<u32>, x: int, y: int, i: int, j: int, radius: int)
    requires
        labels_follow_marks(mask, labels),
        mask.inside(x, y),
        mask.inside(i, j),
        chebyshev(x, y, i, j) <= radius,
        forall|a: int, b: int| mask.inside(a, b) && chebyshev(x, y, a, b) <= radius ==> #[trigger] marked(mask, a, b),
    ensures
        labels.at(i, j) == labels.at(x, y),
    decreases chebyshev(x, y, i, j),
{
    if !(i == x && j == y) {
        let ni = if x > i { i + 1 } else if x < i { i - 1 } else { i };
        let nj = if y > j { j + 1 } else if y < j { j - 1 } else { j };
        assert(chebyshev(i, j, ni, nj) == 1);
        assert(mask.inside(ni, nj));
        lemma_window_one_label(mask, labels, x, y, ni, nj, radius);
        assert(marked(mask, i, j));
        assert(marked(mask, ni, nj));
    }
}

/// Where every cell within `radius` of `(x, y)` is marked, the box of one
/// component holds them all.
proof fn lemma_window_in_one_box(
    mask: Grid<u8>,
    labels: Grid<u32>,
    comps: Seq<Component>,
    x: int,
    y: int,
    radius: int,
) -> (m: int)
    requires
        labels_follow_marks(mask, labels),
        is_component_list(labels, comps),
        mask.inside(x, y),
        radius >= 0,
        forall|a: int, b: int| mask.inside(a, b) && chebyshev(x, y, a, b) <= radius ==> #[trigger] marked(mask, a, b),
    ensures
        0 <= m < comps.len(),
        forall|i: int, j: int|
            mask.inside(i, j) && chebyshev(x, y, i, j) <= radius ==> #[trigger] comps[m].bounds.contains(i, j),
{
    assert(marked(mask, x, y));
    let label = labels.at(x, y);
    assert(label != 0);
    let m = choose|m: int| 0 <= m < comps.len() && (#[trigger] comps[m]).label == label;
    assert forall|i: int, j: int| mask.inside(i, j) && chebyshev(x, y, i, j) <= radius implies #[trigger] comps[m].bounds.contains(
        i,
        j,
    ) by {
        lemma_window_one_label(mask, labels, x, y, i, j, radius);
        assert(carries(labels, label, i, j));
    }
    m
}

/// Detection covers what it was shown: for each pixel that the colour mask
/// or the edge mask marks, one box holds the pixel and all that lies within
/// the bridge radius of it, and that box is among the regions unless it is
/// smaller than `min_area`.
pub proof fn lemma_detection_covers(
    color: Grid<u8>,
    edges: Grid<u8>,
    both: Grid<u8>,
    grown: Grid<u8>,
    min_area: int,
    out: Seq<Region>,
    x: int,
    y: int,
)
    requires
        is_union(color, edges, both),
        is_dilation(both, BRIDGE_RADIUS as int, grown),
        labels_follow_marks(grown, labelled(grown)),
        is_box_list(labelled(grown), min_area, out),
        color.inside(x, y),
        color.at(x, y) != 0 || edges.at(x, y) != 0,
    ensures
        exists|bounds: Region| #[trigger]
            holds_window(color, bounds, x, y) && (bounds.area() >= min_area ==> out.contains(bounds)),
{
    let labels = labelled(grown);
    let comps = choose|comps: Seq<Component>| #[trigger]
        is_component_list(labels, comps) && out == large_boxes(comps, min_area);
    assert(marked(both, x, y));
    assert forall|a: int, b: int|
        grown.inside(a, b) && chebyshev(x, y, a, b) <= BRIDGE_RADIUS implies #[trigger] marked(grown, a, b) by {
        assert(chebyshev(a, b, x, y) == chebyshev(x, y, a, b));
        assert(near_marked(both, a, b, BRIDGE_RADIUS as int));
    }
    let m = lemma_window_in_one_box(grown, labels, comps, x, y, BRIDGE_RADIUS as int);
    let bounds = comps[m].bounds;
    lemma_large_boxes(comps, min_area);
    assert(holds_window(color, bounds, x, y));
}

/// `out` is what detection yields for a colour mask and an edge mask: the
/// two are united, the union is grown by the bridge radius, and `out` lists
/// the boxes of the blobs of the grown mask that hold at least `min_area`
/// pixels.
pub open spec fn is_detection(color: Grid<u8>, edges: Grid<u8>, min_area: int, out: Seq<Region>) -> bool {
    exists|both: Grid<u8>, grown: Grid<u8>|
        #![trigger is_union(color, edges, both), is_dilation(both, BRIDGE_RADIUS as int, grown)]
        is_union(color, edges, both) && is_dilation(both, BRIDGE_RADIUS as int, grown) && is_box_list(
            labelled(grown),
            min_area,
            out,
        )
}

/// Candidate regions from a colour mask and an edge mask of one image.
///
/// A pixel counts where either mask marks it. The marks are grown by the
/// bridge radius, the grown mask is split into eight-connected blobs, and
/// the bounding box of each blob is returned if it holds at least `min_area`
/// pixels. The boxes come in the order in which their blobs first show up
/// row by row.
pub fn detect_regions(color: &Mask, edges: &Mask, min_area: u64) -> (out: Vec<Region>)
    requires
        color@.width == 0 || color@.height == 0 || (color@.width <= edges@.width && color@.height
            <= edges@.height),
        color@.width + color@.height <= u32::MAX,
        color@.width * color@.height < 0x1_0000_0000,
    ensures
        is_detection(color@, edges@, min_area as int, out@),
        forall|k: int| 0 <= k < out@.len() ==> (#[trigger] out@[k]).area() >= min_area,
        forall|k: int|
            0 <= k < out@.len() ==> (#[trigger] out@[k]).x + out@[k].width <= color@.width && out@[k].y
                + out@[k].height <= color@.height,
        (forall|x: int, y: int| color@.inside(x, y) ==> color@.at(x, y) == 0 && edges@.at(x, y) == 0)
            ==> out@.len() == 0,
        forall|x: int, y: int|
            color@.inside(x, y) && (#[trigger] color@.at(x, y) != 0 || edges@.at(x, y) != 0) ==> exists|
                bounds: Region,
            | #[trigger]
                holds_window(color@, bounds, x, y) && (bounds.area() >= min_area ==> out@.contains(bounds)),
{
    let both = combine_masks(color, edges);
    let grown = dilate(&both, BRIDGE_RADIUS);
    let out = find_regions(&grown, min_area);
    assert(is_union(color@, edges@, both@) && is_dilation(both@, BRIDGE_RADIUS as int, grown@));
    proof {
        assert forall|x: int, y: int|
            color@.inside(x, y) && (#[trigger] color@.at(x, y) != 0 || edges@.at(x, y) != 0) implies exists|
            bounds: Region,
        | #[trigger]
            holds_window(color@, bounds, x, y) && (bounds.area() >= min_area ==> out@.contains(bounds)) by {
            lemma_detection_covers(color@, edges@, both@, grown@, min_area as int, out@, x, y);
        }
        assert forall|k: int| 0 <= k < out@.len() implies (#[trigger] out@[k]).x + out@[k].width
            <= color@.width && out@[k].y + out@[k].height <= color@.height by {
            assert(holds_mark(grown@, out@[k]));
        }
        if out@.len() > 0 && (forall|x: int, y: int|
            color@.inside(x, y) ==> color@.at(x, y) == 0 && edges@.at(x, y) == 0) {
            assert(holds_mark(grown@, out@[0]));
            let (x, y) = choose|x: int, y: int| #[trigger] marked(grown@, x, y) && out@[0].contains(x, y);
            assert(near_marked(both@, x, y, BRIDGE_RADIUS as int));
            let (i, j) = choose|i: int, j: int| #[trigger]
                marked(both@, i, j) && chebyshev(x, y, i, j) <= BRIDGE_RADIUS;
            assert(both@.at(i, j) != 0);
        }
    }
    out
}

/// Two unions of the same masks are the same mask.
pub proof fn lemma_union_unique(a: Grid<u8>, b: Grid<u8>, first: Grid<u8>, second: Grid<u8>)
    requires
        is_union(a, b, first),
        is_union(a, b, second),
    ensures
        first == second,
{
    lemma_grid_ext(first, second);
}

/// Two dilations of one mask by one radius are the same mask.
pub proof fn lemma_dilation_unique(src: Grid<u8>, radius: int, first: Grid<u8>, second: Grid<u8>)
    requires
        is_dilation(src, radius, first),
        is_dilation(src, radius, second),
    ensures
        first == second,
{
    lemma_grid_ext(first, second);
}

/// Detection is a function of its inputs: the same masks and the same area
/// bound give the same regions, in the same order.
pub proof fn lemma_detection_is_deterministic(
    color: Grid<u8>,
    edges: Grid<u8>,
    min_area: int,
    first: Seq<Region>,
    second: Seq<Region>,
)
    requires
        is_detection(color, edges, min_area, first),
        is_detection(color, edges, min_area, second),
    ensures
        first == second,
{
    let (b1, g1) = choose|both: Grid<u8>, grown: Grid<u8>|
        #![trigger is_union(color, edges, both), is_dilation(both, BRIDGE_RADIUS as int, grown)]
        is_union(color, edges, both) && is_dilation(both, BRIDGE_RADIUS as int, grown) && is_box_list(
            labelled(grown),
            min_area,
            first,
        );
    let (b2, g2) = choose|both: Grid<u8>, grown: Grid<u8>|
        #![trigger is_union(color, edges, both), is_dilation(both, BRIDGE_RADIUS as int, grown)]
        is_union(color, edges, both) && is_dilation(both, BRIDGE_RADIUS as int, grown) && is_box_list(
            labelled(grown),
            min_area,
            second,
        );
    lemma_union_unique(color, edges, b1, b2);
    lemma_dilation_unique(b1, BRIDGE_RADIUS as int, g1, g2);
    lemma_box_list_unique(labelled(g1), min_area, first, second);
}

} // verus!
