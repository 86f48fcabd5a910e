//! The fill that repairs a mask from its rim inwards: which pixels are due
//! in a pass, which neighbours lend them colour, and how a pass is committed.

use vstd::prelude::*;
use crate::grid::{Grid, chebyshev, lemma_ordered_listing_unique, scanned_before};
use crate::morphology::marked;
use crate::raster::{Mask, Raster, Rgb};

verus! {

/// The number of passes after which a fill stops whatever is left.
pub const MAX_ITERATIONS: u32 = 500;

/// How far, in pixels, a repaired pixel looks for colour.
pub const SEARCH_RADIUS: u32 = 2;

/// A pixel position.
#[derive(Debug, Clone, Copy, PartialEq, Eq, Structural)]
pub struct Point {
    pub x: u32,
    pub y: u32,
}

/// `(x, y)` is a position of the mask and is not marked.
pub open spec fn clear(mask: Grid<u8>, x: int, y: int) -> bool {
    mask.inside(x, y) && mask.at(x, y) == 0
}

/// One of the up to eight neighbours of `(x, y)` is a clear cell of the mask.
pub open spec fn has_clear_neighbour(mask: Grid<u8>, x: int, y: int) -> bool {
    exists|i: int, j: int| #[trigger] clear(mask, i, j) && chebyshev(x, y, i, j) == 1
}

/// `(x, y)` is on the rim of the marked area: it is marked and touches a
/// clear cell.
pub open spec fn on_frontier(mask: Grid<u8>, x: int, y: int) -> bool {
    marked(mask, x, y) && has_clear_neighbour(mask, x, y)
}

/// `list` holds the rim of the marked area, each position once, row by row.
pub open spec fn is_frontier_list(mask: Grid<u8>, list: Seq<Point>) -> bool {
    &&& forall|k: int| 0 <= k < list.len() ==> on_frontier(mask, (#[trigger] list[k]).x as int, list[k].y as int)
    &&& forall|j: int, k: int|
        #![trigger list[j], list[k]]
        0 <= j < k < list.len() ==> scanned_before(
            list[j].x as int,
            list[j].y as int,
            list[k].x as int,
            list[k].y as int,
        )
    &&& forall|x: int, y: int| #[trigger]
        on_frontier(mask, x, y) ==> exists|k: int|
            0 <= k < list.len() && (#[trigger] list[k]).x == x && list[k].y == y
}

/// Whether one of the neighbours of `(x, y)` inside the mask is clear.
pub fn has_valid_neighbor(mask: &Mask, x: u32, y: u32) -> (found: bool)
    ensures
        found == has_clear_neighbour(mask@, x as int, y as int),
{
    let w = mask.width();
    let h = mask.height();
    let mut dy: i64 = -1;
    while dy <= 1
        invariant
            -1 <= dy <= 2,
            w == mask@.width,
            h == mask@.height,
            forall|i: int, j: int| #[trigger]
                clear(mask@, i, j) && chebyshev(x as int, y as int, i, j) == 1 ==> j - y >= dy,
        decreases 2 - dy,
    {
        let mut dx: i64 = -1;
        while dx <= 1
            invariant
                -1 <= dx <= 2,
                -1 <= dy <= 1,
                w == mask@.width,
                h == mask@.height,
                forall|i: int, j: int| #[trigger]
                    clear(mask@, i, j) && chebyshev(x as int, y as int, i, j) == 1 ==> j - y > dy || (j - y
                        == dy && i - x >= dx),
            decreases 2 - dx,
        {
            if !(dx == 0 && dy == 0) {
                let nx: i64 = x as i64 + dx;
                let ny: i64 = y as i64 + dy;
                if nx >= 0 && nx < w as i64 && ny >= 0 && ny < h as i64 {
                    if mask.get(nx as u32, ny as u32) == 0 {
                        assert(clear(mask@, nx as int, ny as int));
                        return true;
                    }
                }
            }
            dx += 1;
        }
        dy += 1;
    }
    false
}

/// The scan for the rim stands at `(sx, sy)`: `list` holds the rim cells
/// that come before that position.
spec fn frontier_so_far(mask: Grid<u8>, list: Seq<Point>, sx: int, sy: int) -> bool {
    &&& forall|k: int|
        0 <= k < list.len() ==> on_frontier(mask, (#[trigger] list[k]).x as int, list[k].y as int)
            && scanned_before(list[k].x as int, list[k].y as int, sx, sy)
    &&& forall|j: int, k: int|
        #![trigger list[j], list[k]]
        0 <= j < k < list.len() ==> scanned_before(
            list[j].x as int,
            list[j].y as int,
            list[k].x as int,
            list[k].y as int,
        )
    &&& forall|x: int, y: int| #[trigger]
        on_frontier(mask, x, y) && scanned_before(x, y, sx, sy) ==> exists|k: int|
            0 <= k < list.len() && (#[trigger] list[k]).x == x && list[k].y == y
}

/// The rim of the marked area of `mask`: every marked cell that touches a
/// clear cell, row by row.
pub fn find_frontier(mask: &Mask) -> (list: Vec<Point>)
    ensures
        is_frontier_list(mask@, list@),
{
    let w = mask.width();
    let h = mask.height();
    let mut list: Vec<Point> = Vec::new();
    let mut y: u32 = 0;
    while y < h
        invariant
            y <= h,
            w == mask@.width,
            h == mask@.height,
            frontier_so_far(mask@, list@, 0, y as int),
        decreases h - y,
    {
        let mut x: u32 = 0;
        while x < w
            invariant
                x <= w,
                y < h,
                w == mask@.width,
                h == mask@.height,
                frontier_so_far(mask@, list@, x as int, y as int),
            decreases w - x,
        {
            let ghost before = list@;
            if mask.get(x, y) > 0 && has_valid_neighbor(mask, x, y) {
                list.push(Point { x, y });
                proof {
                    assert forall|i: int, j: int| #[trigger]
                        on_frontier(mask@, i, j) && scanned_before(i, j, x + 1, y as int) implies exists|k: int|
                        0 <= k < list@.len() && (#[trigger] list@[k]).x == i && list@[k].y == j by {
                        if scanned_before(i, j, x as int, y as int) {
                            let k = choose|k: int|
                                0 <= k < before.len() && (#[trigger] before[k]).x == i && before[k].y == j;
                            assert(list@[k] == before[k]);
                        } else {
                            assert(list@[before.len() as int] == Point { x, y });
                        }
                    }
                }
            }
            x += 1;
        }
        y += 1;
    }
    proof {
        assert forall|i: int, j: int| #[trigger] on_frontier(mask@, i, j) implies exists|k: int|
            0 <= k < list@.len() && (#[trigger] list@[k]).x == i && list@[k].y == j by {
            assert(scanned_before(i, j, 0, h as int));
        }
    }
    list
}

/// A clear pixel that lends its colour to the repair of a nearby pixel.
#[derive(Debug, Clone, Copy, PartialEq, Eq, Structural)]
pub struct Donor {
    pub x: u32,
    pub y: u32,
    /// Squared Euclidean distance to the pixel under repair.
    pub dist_sq: u32,
    pub color: Rgb,
}

/// The clear cell `(i, j)` lies in the search window of `(x, y)` and is not
/// `(x, y)` itself.
pub open spec fn lends_to(mask: Grid<u8>, x: int, y: int, i: int, j: int) -> bool {
    clear(mask, i, j) && chebyshev(x, y, i, j) <= SEARCH_RADIUS && !(i == x && j == y)
}

/// `donor` describes a cell that lends to `(x, y)`: its position, its
/// squared distance to `(x, y)` and its colour in `image`.
pub open spec fn is_donor(image: Grid<Rgb>, mask: Grid<u8>, x: int, y: int, donor: Donor) -> bool {
    &&& lends_to(mask, x, y, donor.x as int, donor.y as int)
    &&& donor.dist_sq == (donor.x - x) * (donor.x - x) + (donor.y - y) * (donor.y - y)
    &&& donor.color == image.at(donor.x as int, donor.y as int)
}

/// `list` holds the donors of `(x, y)`, each once, row by row.
pub open spec fn is_donor_list(image: Grid<Rgb>, mask: Grid<u8>, x: int, y: int, list: Seq<Donor>) -> bool {
    &&& forall|k: int| 0 <= k < list.len() ==> is_donor(image, mask, x, y, #[trigger] list[k])
    &&& forall|j: int, k: int|
        #![trigger list[j], list[k]]
        0 <= j < k < list.len() ==> scanned_before(
            list[j].x as int,
            list[j].y as int,
            list[k].x as int,
            list[k].y as int,
        )
    &&& forall|i: int, j: int| #[trigger]
        lends_to(mask, x, y, i, j) ==> exists|k: int|
            0 <= k < list.len() && (#[trigger] list[k]).x == i && list[k].y == j
}

/// The scan of the search window stands at `(sx, sy)`: `list` holds the
/// donors that come before that position.
spec fn donors_so_far(
    image: Grid<Rgb>,
    mask: Grid<u8>,
    x: int,
    y: int,
    list: Seq<Donor>,
    sx: int,
    sy: int,
) -> bool {
    &&& forall|k: int|
        0 <= k < list.len() ==> is_donor(image, mask, x, y, #[trigger] list[k]) && scanned_before(
            list[k].x as int,
            list[k].y as int,
            sx,
            sy,
        )
    &&& forall|j: int, k: int|
        #![trigger list[j], list[k]]
        0 <= j < k < list.len() ==> scanned_before(
            list[j].x as int,
            list[j].y as int,
            list[k].x as int,
            list[k].y as int,
        )
    &&& forall|i: int, j: int| #[trigger]
        lends_to(mask, x, y, i, j) && scanned_before(i, j, sx, sy) ==> exists|k: int|
            0 <= k < list.len() && (#[trigger] list[k]).x == i && list[k].y == j
}

/// The clear pixels within the search radius of `(x, y)`, `(x, y)` itself
/// left out, row by row, each with its squared distance and its colour.
pub fn find_donors(image: &Raster, mask: &Mask, x: u32, y: u32) -> (list: Vec<Donor>)
    requires
        mask@.same_shape(image@),
    ensures
        is_donor_list(image@, mask@, x as int, y as int, list@),
{
    let w = mask.width();
    let h = mask.height();
    let mut list: Vec<Donor> = Vec::new();
    let mut dy: i64 = -2;
    while dy <= 2
        invariant
            -2 <= dy <= 3,
            w == mask@.width,
            h == mask@.height,
            mask@.same_shape(image@),
            donors_so_far(image@, mask@, x as int, y as int, list@, x - 2, y + dy),
        decreases 3 - dy,
    {
        let mut dx: i64 = -2;
        while dx <= 2
            invariant
                -2 <= dx <= 3,
                -2 <= dy <= 2,
                w == mask@.width,
                h == mask@.height,
                mask@.same_shape(image@),
                donors_so_far(image@, mask@, x as int, y as int, list@, x + dx, y + dy),
            decreases 3 - dx,
        {
            let ghost before = list@;
            let nx: i64 = x as i64 + dx;
            let ny: i64 = y as i64 + dy;
            let mut lends = false;
            if !(dx == 0 && dy == 0) && nx >= 0 && nx < w as i64 && ny >= 0 && ny < h as i64 {
                if mask.get(nx as u32, ny as u32) == 0 {
                    lends = true;
                    assert(0 <= dx * dx <= 4 && 0 <= dy * dy <= 4) by (nonlinear_arith)
                        requires
                            -2 <= dx <= 2,
                            -2 <= dy <= 2,
                    ;
                    let dist_sq: u32 = (dx * dx + dy * dy) as u32;
                    let color = image.get_pixel(nx as u32, ny as u32);
                    list.push(Donor { x: nx as u32, y: ny as u32, dist_sq, color });
                }
            }
            proof {
                assert(lends == lends_to(mask@, x as int, y as int, nx as int, ny as int));
                assert forall|i: int, j: int| #[trigger]
                    lends_to(mask@, x as int, y as int, i, j) && scanned_before(
                        i,
                        j,
                        x + dx + 1,
                        y + dy,
                    ) implies exists|k: int|
                    0 <= k < list@.len() && (#[trigger] list@[k]).x == i && list@[k].y == j by {
                    if scanned_before(i, j, x + dx, y + dy) {
                        let k = choose|k: int|
                            0 <= k < before.len() && (#[trigger] before[k]).x == i && before[k].y == j;
                        assert(list@[k] == before[k]);
                    } else {
                        assert(i == nx && j == ny);
                        assert(list@[before.len() as int].x == i);
                    }
                }
            }
            dx += 1;
        }
        proof {
            assert forall|i: int, j: int| #[trigger]
                lends_to(mask@, x as int, y as int, i, j) && scanned_before(
                    i,
                    j,
                    x - 2,
                    y + dy + 1,
                ) implies exists|k: int|
                0 <= k < list@.len() && (#[trigger] list@[k]).x == i && list@[k].y == j by {
                assert(scanned_before(i, j, x + 3, y + dy));
            }
        }
        dy += 1;
    }
    proof {
        assert forall|i: int, j: int| #[trigger] lends_to(mask@, x as int, y as int, i, j) implies exists|k: int|
            0 <= k < list@.len() && (#[trigger] list@[k]).x == i && list@[k].y == j by {
            assert(scanned_before(i, j, x - 2, y + 3));
        }
    }
    list
}

/// One pixel that a pass is to repair: where it lies, the colour it has
/// now, and the pixels that lend it colour.
#[derive(Debug)]
pub struct RepairTask {
    pub x: u32,
    pub y: u32,
    pub current: Rgb,
    pub donors: Vec<Donor>,
}

/// `task` is the repair of the rim cell `at`.
pub open spec fn is_task(image: Grid<Rgb>, mask: Grid<u8>, at: Point, task: RepairTask) -> bool {
    &&& task.x == at.x
    &&& task.y == at.y
    &&& task.current == image.at(at.x as int, at.y as int)
    &&& is_donor_list(image, mask, at.x as int, at.y as int, task.donors@)
}

/// No clear cell of the mask lies within Chebyshev distance `reach` of
/// `(x, y)`.
pub open spec fn out_of_reach(mask: Grid<u8>, x: int, y: int, reach: int) -> bool {
    forall|i: int, j: int| #[trigger] clear(mask, i, j) ==> chebyshev(x, y, i, j) > reach
}

/// `(x, y)` is still marked after `passes` passes over a mask that began as
/// `first`: it was marked, and every clear cell lay more than `passes` steps
/// away.
pub open spec fn left_after(first: Grid<u8>, passes: int, x: int, y: int) -> bool {
    marked(first, x, y) && out_of_reach(first, x, y, passes)
}

/// `(x, y)` is one of the first `n` positions of `list`.
pub open spec fn listed(list: Seq<Point>, n: int, x: int, y: int) -> bool {
    exists|k: int| 0 <= k < n && (#[trigger] list[k]).x == x && list[k].y == y
}

/// `(image, mask)` becomes `(next_image, next_mask)` by one pass over `rim`
/// with `colors`: each rim cell takes its colour and is cleared, and every
/// other cell keeps its colour and its mask value.
pub open spec fn is_pass(
    image: Grid<Rgb>,
    mask: Grid<u8>,
    rim: Seq<Point>,
    colors: Seq<Rgb>,
    next_image: Grid<Rgb>,
    next_mask: Grid<u8>,
) -> bool {
    &&& next_image.wf()
    &&& next_mask.wf()
    &&& next_image.same_shape(image)
    &&& next_mask.same_shape(mask)
    &&& forall|k: int|
        0 <= k < rim.len() ==> next_image.at((#[trigger] rim[k]).x as int, rim[k].y as int) == colors[k]
            && next_mask.at(rim[k].x as int, rim[k].y as int) == 0
    &&& forall|x: int, y: int|
        image.inside(x, y) && !listed(rim, rim.len() as int, x, y) ==> #[trigger] next_image.at(x, y)
            == image.at(x, y)
    &&& forall|x: int, y: int|
        mask.inside(x, y) && !listed(rim, rim.len() as int, x, y) ==> #[trigger] next_mask.at(x, y)
            == mask.at(x, y)
}

/// A fill under way: the working image, what is left of the repair mask,
/// the rim that the next pass repairs, and the number of passes done.
pub struct Inpainting {
    image: Raster,
    mask: Mask,
    passes: u32,
    rim: Vec<Point>,
    source: Ghost<Grid<Rgb>>,
    first_mask: Ghost<Grid<u8>>,
}

impl Inpainting {
    /// The working image.
    pub closed spec fn image(&self) -> Grid<Rgb> {
        self.image@
    }

    /// The cells still to be repaired.
    pub closed spec fn mask(&self) -> Grid<u8> {
        self.mask@
    }

    /// The number of passes committed so far.
    pub closed spec fn passes(&self) -> nat {
        self.passes as nat
    }

    /// The rim of the mask: the cells that the next pass repairs.
    pub closed spec fn rim(&self) -> Seq<Point> {
        self.rim@
    }

    /// The image that the fill began with.
    pub closed spec fn source(&self) -> Grid<Rgb> {
        self.source@
    }

    /// The mask that the fill began with.
    pub closed spec fn first_mask(&self) -> Grid<u8> {
        self.first_mask@
    }

    /// What holds of a fill at every moment: image and mask have the shape
    /// of the source, the rim is the rim of the mask, no more than the
    /// allowed passes are done, the mask holds exactly the cells of the
    /// first mask that lay more steps from every clear cell than passes are
    /// done, and a pixel that the first mask left clear, or that is still
    /// marked, has its source colour.
    pub open spec fn valid(&self) -> bool {
        &&& self.image().wf()
        &&& self.mask().wf()
        &&& self.source().wf()
        &&& self.first_mask().wf()
        &&& self.mask().same_shape(self.image())
        &&& self.source().same_shape(self.image())
        &&& self.first_mask().same_shape(self.image())
        &&& self.passes() <= MAX_ITERATIONS
        &&& is_frontier_list(self.mask(), self.rim())
        &&& forall|x: int, y: int| #[trigger]
            marked(self.mask(), x, y) <==> left_after(self.first_mask(), self.passes() as int, x, y)
        &&& forall|x: int, y: int|
            self.image().inside(x, y) && (!marked(self.first_mask(), x, y) || marked(self.mask(), x, y))
                ==> #[trigger] self.image().at(x, y) == self.source().at(x, y)
    }

    #[verifier::type_invariant]
    closed spec fn inv(&self) -> bool {
        self.valid()
    }

    /// No pass remains: the rim is empty or the allowed passes are used up.
    pub open spec fn finished(&self) -> bool {
        self.rim().len() == 0 || self.passes() >= MAX_ITERATIONS
    }

    /// A fill of `image` under `mask`. `None` unless the two have one shape.
    pub fn start(image: Raster, mask: Mask) -> (job: Option<Inpainting>)
        ensures
            job is Some <==> mask@.same_shape(image@),
            job matches Some(j) ==> j.valid() && j.image() == image@ && j.mask() == mask@ && j.passes() == 0
                && j.source() == image@ && j.first_mask() == mask@,
    {
        if image.width() != mask.width() || image.height() != mask.height() {
            return None;
        }
        let rim = find_frontier(&mask);
        proof {
            assert forall|x: int, y: int| #[trigger] marked(mask@, x, y) implies out_of_reach(mask@, x, y, 0) by {
                assert forall|i: int, j: int| #[trigger] clear(mask@, i, j) implies chebyshev(x, y, i, j) > 0 by {
                    assert(!(i == x && j == y));
                }
            }
        }
        Some(Inpainting { source: Ghost(image@), first_mask: Ghost(mask@), image, mask, passes: 0, rim })
    }

    /// The working image.
    pub fn current_image(&self) -> (image: &Raster)
        ensures
            image@ == self.image(),
            self.valid(),
    {
        proof {
            use_type_invariant(self);
        }
        &self.image
    }

    /// The cells still to be repaired.
    pub fn current_mask(&self) -> (mask: &Mask)
        ensures
            mask@ == self.mask(),
            self.valid(),
    {
        proof {
            use_type_invariant(self);
        }
        &self.mask
    }

    /// The number of passes committed so far.
    pub fn passes_done(&self) -> (n: u32)
        ensures
            n == self.passes(),
            n <= MAX_ITERATIONS,
    {
        proof {
            use_type_invariant(self);
        }
        self.passes
    }

    /// Whether no pass remains.
    pub fn is_finished(&self) -> (done: bool)
        ensures
            done == self.finished(),
    {
        self.rim.len() == 0 || self.passes >= MAX_ITERATIONS
    }

    /// The work of the next pass: one task for each cell of the rim, in the
    /// order of the rim, each read from the state as it stands. Empty when
    /// the fill is finished.
    pub fn plan(&self) -> (tasks: Vec<RepairTask>)
        ensures
            self.valid(),
            tasks@.len() == if self.finished() { 0 } else { self.rim().len() },
            forall|k: int|
                0 <= k < tasks@.len() ==> is_task(self.image(), self.mask(), self.rim()[k], #[trigger] tasks@[k]),
    {
        proof {
            use_type_invariant(self);
        }
        let mut tasks: Vec<RepairTask> = Vec::new();
        if self.passes >= MAX_ITERATIONS {
            return tasks;
        }
        let _ = self.mask.width();
        let mut k: usize = 0;
        while k < self.rim.len()
            invariant
                k <= self.rim@.len(),
                self.valid(),
                tasks@.len() == k,
                forall|j: int|
                    0 <= j < k ==> is_task(self.image@, self.mask@, self.rim@[j], #[trigger] tasks@[j]),
            decreases self.rim@.len() - k,
        {
            let at = self.rim[k];
            assert(on_frontier(self.mask@, at.x as int, at.y as int));
            let current = self.image.get_pixel(at.x, at.y);
            let donors = find_donors(&self.image, &self.mask, at.x, at.y);
            tasks.push(RepairTask { x: at.x, y: at.y, current, donors });
            k += 1;
        }
        tasks
    }

    /// Commits a pass: the `k`-th cell of the rim takes the `k`-th colour
    /// and leaves the mask, and the rim of what is left is found.
    ///
    /// Nothing is committed, and the fill is handed back as it was, when the
    /// fill is finished or `colors` does not hold one colour for each cell of
    /// the rim.
    pub fn commit(self, colors: &Vec<Rgb>) -> (out: (Inpainting, bool))
        ensures
            out.1 == (!self.finished() && colors@.len() == self.rim().len()),
            !out.1 ==> out.0 == self,
            out.0.valid(),
            out.0.source() == self.source(),
            out.0.first_mask() == self.first_mask(),
            out.1 ==> out.0.passes() == self.passes() + 1 && is_pass(
                self.image(),
                self.mask(),
                self.rim(),
                colors@,
                out.0.image(),
                out.0.mask(),
            ),
    {
        proof {
            use_type_invariant(&self);
        }
        if self.rim.len() == 0 || self.passes >= MAX_ITERATIONS || colors.len() != self.rim.len() {
            return (self, false);
        }
        let ghost before = self;
        let Inpainting { image, mask, passes, rim, source, first_mask } = self;
        let mut image = image;
        let mut mask = mask;
        let _ = image.width();
        let _ = mask.width();
        let mut k: usize = 0;
        while k < rim.len()
            invariant
                k <= rim@.len(),
                colors@.len() == rim@.len(),
                before.valid(),
                rim@ == before.rim(),
                image@.wf(),
                mask@.wf(),
                image@.same_shape(before.image()),
                mask@.same_shape(before.mask()),
                forall|j: int|
                    0 <= j < k ==> image@.at((#[trigger] rim@[j]).x as int, rim@[j].y as int) == colors@[j]
                        && mask@.at(rim@[j].x as int, rim@[j].y as int) == 0,
                forall|x: int, y: int|
                    image@.inside(x, y) && !listed(rim@, k as int, x, y) ==> #[trigger] image@.at(x, y)
                        == before.image().at(x, y),
                forall|x: int, y: int|
                    mask@.inside(x, y) && !listed(rim@, k as int, x, y) ==> #[trigger] mask@.at(x, y)
                        == before.mask().at(x, y),
            decreases rim@.len() - k,
        {
            let at = rim[k];
            assert(on_frontier(before.mask(), at.x as int, at.y as int));
            let ghost image_before = image@;
            let ghost mask_before = mask@;
            image.put_pixel(at.x, at.y, colors[k]);
            mask.put(at.x, at.y, 0);
            proof {
                assert forall|j: int| 0 <= j < k + 1 implies image@.at(
                    (#[trigger] rim@[j]).x as int,
                    rim@[j].y as int,
                ) == colors@[j] && mask@.at(rim@[j].x as int, rim@[j].y as int) == 0 by {
                    if j < k {
                        assert(scanned_before(rim@[j].x as int, rim@[j].y as int, at.x as int, at.y as int));
                    }
                }
                assert forall|x: int, y: int|
                    image@.inside(x, y) && !listed(rim@, k + 1, x, y) implies #[trigger] image@.at(x, y)
                    == before.image().at(x, y) by {
                    assert(!(rim@[k as int].x == x && rim@[k as int].y == y));
                    if listed(rim@, k as int, x, y) {
                        let j = choose|j: int| 0 <= j < k && (#[trigger] rim@[j]).x == x && rim@[j].y == y;
                        assert(rim@[j].x == x && rim@[j].y == y);
                    }
                }
                assert forall|x: int, y: int|
                    mask@.inside(x, y) && !listed(rim@, k + 1, x, y) implies #[trigger] mask@.at(x, y)
                    == before.mask().at(x, y) by {
                    assert(!(rim@[k as int].x == x && rim@[k as int].y == y));
                    if listed(rim@, k as int, x, y) {
                        let j = choose|j: int| 0 <= j < k && (#[trigger] rim@[j]).x == x && rim@[j].y == y;
                        assert(rim@[j].x == x && rim@[j].y == y);
                    }
                }
            }
            k += 1;
        }
        let next_rim = find_frontier(&mask);
        proof {
            assert forall|x: int, y: int| #[trigger]
                marked(mask@, x, y) <==> left_after(before.first_mask(), passes + 1, x, y) by {
                lemma_peel(before.first_mask(), before.mask(), passes as int, x, y);
                lemma_listed_is_on_frontier(before.mask(), rim@, x, y);
                if listed(rim@, rim@.len() as int, x, y) {
                    let j = choose|j: int| 0 <= j < rim@.len() && (#[trigger] rim@[j]).x == x && rim@[j].y == y;
                    assert(mask@.at(rim@[j].x as int, rim@[j].y as int) == 0);
                }
            }
            assert forall|x: int, y: int|
                image@.inside(x, y) && (!marked(before.first_mask(), x, y) || marked(mask@, x, y)) implies #[trigger] image@.at(
                x,
                y,
            ) == before.source().at(x, y) by {
                lemma_listed_is_on_frontier(before.mask(), rim@, x, y);
                if listed(rim@, rim@.len() as int, x, y) {
                    let j = choose|j: int| 0 <= j < rim@.len() && (#[trigger] rim@[j]).x == x && rim@[j].y == y;
                    assert(mask@.at(rim@[j].x as int, rim@[j].y as int) == 0);
                    assert(marked(before.mask(), x, y));
                } else {
                    if marked(mask@, x, y) {
                        assert(marked(before.mask(), x, y));
                    }
                }
            }
        }
        (Inpainting { image, mask, passes: passes + 1, rim: next_rim, source, first_mask }, true)
    }

    /// Ends the fill and hands out the image as it stands. It has the shape
    /// of the source. A pixel has its source colour if the first mask left
    /// it clear, and also if the passes made did not reach it: if it is
    /// still marked, which is so of every marked pixel more than
    /// `MAX_ITERATIONS` steps from all clear pixels, and of every pixel of a
    /// mask that had no clear pixel.
    pub fn into_image(self) -> (image: Raster)
        ensures
            self.valid(),
            image@ == self.image(),
            image@.wf(),
            image@.same_shape(self.source()),
            forall|x: int, y: int|
                image@.inside(x, y) && !marked(self.first_mask(), x, y) ==> #[trigger] image@.at(x, y)
                    == self.source().at(x, y),
            forall|x: int, y: int|
                image@.inside(x, y) && out_of_reach(self.first_mask(), x, y, self.passes() as int)
                    ==> #[trigger] image@.at(x, y) == self.source().at(x, y),
            forall|x: int, y: int|
                image@.inside(x, y) && out_of_reach(self.first_mask(), x, y, MAX_ITERATIONS as int)
                    ==> #[trigger] image@.at(x, y) == self.source().at(x, y),
    {
        proof {
            use_type_invariant(&self);
            assert forall|x: int, y: int|
                self.image@.inside(x, y) && out_of_reach(
                    self.first_mask(),
                    x,
                    y,
                    MAX_ITERATIONS as int,
                ) implies out_of_reach(self.first_mask(), x, y, self.passes() as int) by {}
        }
        self.image
    }
}

/// The positions of a frontier list are exactly the rim cells of the mask.
pub proof fn lemma_listed_is_on_frontier(mask: Grid<u8>, rim: Seq<Point>, x: int, y: int)
    requires
        is_frontier_list(mask, rim),
    ensures
        listed(rim, rim.len() as int, x, y) <==> on_frontier(mask, x, y),
{
    if listed(rim, rim.len() as int, x, y) {
        let k = choose|k: int| 0 <= k < rim.len() && (#[trigger] rim[k]).x == x && rim[k].y == y;
        assert(on_frontier(mask, rim[k].x as int, rim[k].y as int));
    }
}

/// One pass peels one ring. Where `mask` is what `passes` passes have left
/// of `first`, the marked cells of `mask` that are not on its rim are what
/// `passes + 1` passes leave.
pub proof fn lemma_peel(first: Grid<u8>, mask: Grid<u8>, passes: int, x: int, y: int)
    requires
        passes >= 0,
        mask.same_shape(first),
        forall|i: int, j: int| #[trigger] marked(mask, i, j) <==> left_after(first, passes, i, j),
    ensures
        (marked(mask, x, y) && !on_frontier(mask, x, y)) <==> left_after(first, passes + 1, x, y),
{
    if marked(mask, x, y) && !on_frontier(mask, x, y) {
        assert(left_after(first, passes, x, y));
        assert forall|ci: int, cj: int| #[trigger] clear(first, ci, cj) implies chebyshev(x, y, ci, cj) > passes
            + 1 by {
            if chebyshev(x, y, ci, cj) <= passes + 1 {
                let nx = if ci > x { x + 1 } else if ci < x { x - 1 } else { x };
                let ny = if cj > y { y + 1 } else if cj < y { y - 1 } else { y };
                assert(chebyshev(x, y, nx, ny) == 1);
                assert(chebyshev(nx, ny, ci, cj) == passes);
                assert(mask.inside(nx, ny));
                assert(!clear(mask, nx, ny));
                assert(marked(mask, nx, ny));
                assert(left_after(first, passes, nx, ny));
            }
        }
    }
    if left_after(first, passes + 1, x, y) {
        assert(out_of_reach(first, x, y, passes));
        assert(marked(mask, x, y));
        if has_clear_neighbour(mask, x, y) {
            let (i, j) = choose|i: int, j: int| #[trigger] clear(mask, i, j) && chebyshev(x, y, i, j) == 1;
            assert(!marked(mask, i, j));
            assert(!left_after(first, passes, i, j));
            if !marked(first, i, j) {
                assert(clear(first, i, j));
            } else {
                let (ci, cj) = choose|ci: int, cj: int| #[trigger]
                    clear(first, ci, cj) && !(chebyshev(i, j, ci, cj) > passes);
                assert(clear(first, ci, cj));
                assert(chebyshev(x, y, ci, cj) <= passes + 1);
            }
        }
    }
}

/// The rim of the pass after `passes` passes is the ring of cells exactly
/// `passes + 1` steps from the nearest clear cell of the first mask.
pub proof fn lemma_rim_is_the_next_ring(first: Grid<u8>, mask: Grid<u8>, passes: int, x: int, y: int)
    requires
        passes >= 0,
        mask.same_shape(first),
        forall|i: int, j: int| #[trigger] marked(mask, i, j) <==> left_after(first, passes, i, j),
    ensures
        on_frontier(mask, x, y) <==> (left_after(first, passes, x, y) && !left_after(first, passes + 1, x, y)),
{
    lemma_peel(first, mask, passes, x, y);
}

/// A pass changes no pixel outside the mask: only cells of the rim, which
/// are marked, take a new colour.
pub proof fn lemma_pass_keeps_clear_pixels(
    image: Grid<Rgb>,
    mask: Grid<u8>,
    rim: Seq<Point>,
    colors: Seq<Rgb>,
    next_image: Grid<Rgb>,
    next_mask: Grid<u8>,
)
    requires
        mask.same_shape(image),
        is_frontier_list(mask, rim),
        is_pass(image, mask, rim, colors, next_image, next_mask),
    ensures
        forall|x: int, y: int|
            image.inside(x, y) && !on_frontier(mask, x, y) ==> #[trigger] next_image.at(x, y) == image.at(x, y),
        forall|x: int, y: int|
            image.inside(x, y) && !marked(mask, x, y) ==> #[trigger] next_image.at(x, y) == image.at(x, y),
{
    assert forall|x: int, y: int| image.inside(x, y) && !on_frontier(mask, x, y) implies #[trigger] next_image.at(
        x,
        y,
    ) == image.at(x, y) by {
        lemma_listed_is_on_frontier(mask, rim, x, y);
    }
}

/// A pass takes the rim, and nothing else, out of the mask. With a rim that
/// is not empty, the mask loses at least one cell.
pub proof fn lemma_pass_shrinks_mask(
    image: Grid<Rgb>,
    mask: Grid<u8>,
    rim: Seq<Point>,
    colors: Seq<Rgb>,
    next_image: Grid<Rgb>,
    next_mask: Grid<u8>,
)
    requires
        is_frontier_list(mask, rim),
        is_pass(image, mask, rim, colors, next_image, next_mask),
    ensures
        forall|x: int, y: int| #[trigger]
            marked(next_mask, x, y) <==> marked(mask, x, y) && !on_frontier(mask, x, y),
        rim.len() > 0 ==> marked(mask, rim[0].x as int, rim[0].y as int) && !marked(
            next_mask,
            rim[0].x as int,
            rim[0].y as int,
        ),
{
    assert forall|x: int, y: int| #[trigger]
        marked(next_mask, x, y) <==> marked(mask, x, y) && !on_frontier(mask, x, y) by {
        lemma_listed_is_on_frontier(mask, rim, x, y);
        if listed(rim, rim.len() as int, x, y) {
            let k = choose|k: int| 0 <= k < rim.len() && (#[trigger] rim[k]).x == x && rim[k].y == y;
            assert(next_mask.at(rim[k].x as int, rim[k].y as int) == 0);
        }
    }
    if rim.len() > 0 {
        assert(on_frontier(mask, rim[0].x as int, rim[0].y as int));
    }
}

/// A mask without a marked cell has no rim.
pub proof fn lemma_clear_mask_has_no_rim(mask: Grid<u8>, rim: Seq<Point>)
    requires
        is_frontier_list(mask, rim),
        forall|x: int, y: int| !#[trigger] marked(mask, x, y),
    ensures
        rim.len() == 0,
{
    if rim.len() > 0 {
        assert(on_frontier(mask, rim[0].x as int, rim[0].y as int));
    }
}

/// A mask with a marked cell and a clear cell has a rim: somewhere a marked
/// cell touches a clear one.
pub proof fn lemma_rim_exists(mask: Grid<u8>, mx: int, my: int, cx: int, cy: int)
    requires
        marked(mask, mx, my),
        clear(mask, cx, cy),
    ensures
        exists|x: int, y: int| #[trigger] on_frontier(mask, x, y),
    decreases chebyshev(mx, my, cx, cy),
{
    let sx = if mx > cx { cx + 1 } else if mx < cx { cx - 1 } else { cx };
    let sy = if my > cy { cy + 1 } else if my < cy { cy - 1 } else { cy };
    assert(chebyshev(sx, sy, cx, cy) == 1);
    if marked(mask, sx, sy) {
        assert(clear(mask, cx, cy));
        assert(on_frontier(mask, sx, sy));
    } else {
        assert(clear(mask, sx, sy));
        lemma_rim_exists(mask, mx, my, sx, sy);
    }
}

/// A fill stops short of an empty mask only when no clear cell is left to
/// start from: a frontier list is empty exactly when the mask has no marked
/// cell or no clear cell.
pub proof fn lemma_rim_is_empty_iff(mask: Grid<u8>, rim: Seq<Point>)
    requires
        is_frontier_list(mask, rim),
    ensures
        rim.len() == 0 <==> ((forall|x: int, y: int| !#[trigger] marked(mask, x, y)) || (forall|
            x: int,
            y: int,
        | !#[trigger] clear(mask, x, y))),
{
    if rim.len() > 0 {
        let x = rim[0].x as int;
        let y = rim[0].y as int;
        assert(on_frontier(mask, x, y));
        assert(marked(mask, x, y));
        let (i, j) = choose|i: int, j: int| #[trigger] clear(mask, i, j) && chebyshev(x, y, i, j) == 1;
        assert(clear(mask, i, j));
    } else {
        if (exists|x: int, y: int| #[trigger] marked(mask, x, y)) && (exists|x: int, y: int| #[trigger]
            clear(mask, x, y)) {
            let (mx, my) = choose|x: int, y: int| #[trigger] marked(mask, x, y);
            let (cx, cy) = choose|x: int, y: int| #[trigger] clear(mask, x, y);
            lemma_rim_exists(mask, mx, my, cx, cy);
            let (fx, fy) = choose|x: int, y: int| #[trigger] on_frontier(mask, x, y);
            assert(listed(rim, rim.len() as int, fx, fy)) by {
                lemma_listed_is_on_frontier(mask, rim, fx, fy);
            }
        }
    }
}

/// A mask has exactly one frontier list: the rim of a pass is a function of
/// the mask.
pub proof fn lemma_frontier_list_unique(mask: Grid<u8>, first: Seq<Point>, second: Seq<Point>)
    requires
        is_frontier_list(mask, first),
        is_frontier_list(mask, second),
    ensures
        first == second,
{
    let before = |p: Point, q: Point| scanned_before(p.x as int, p.y as int, q.x as int, q.y as int);
    assert forall|i: int, j: int| 0 <= i < j < first.len() implies before(
        #[trigger] first[i],
        #[trigger] first[j],
    ) by {}
    assert forall|i: int, j: int| 0 <= i < j < second.len() implies before(
        #[trigger] second[i],
        #[trigger] second[j],
    ) by {}
    assert forall|i: int| 0 <= i < first.len() implies second.contains(#[trigger] first[i]) by {
        assert(on_frontier(mask, first[i].x as int, first[i].y as int));
        let k = choose|k: int|
            0 <= k < second.len() && (#[trigger] second[k]).x == first[i].x && second[k].y == first[i].y;
        assert(second[k] == first[i]);
    }
    assert forall|i: int| 0 <= i < second.len() implies first.contains(#[trigger] second[i]) by {
        assert(on_frontier(mask, second[i].x as int, second[i].y as int));
        let k = choose|k: int|
            0 <= k < first.len() && (#[trigger] first[k]).x == second[i].x && first[k].y == second[i].y;
        assert(first[k] == second[i]);
    }
    lemma_ordered_listing_unique(first, second, before);
}

/// A pixel has exactly one donor list in a given image and mask.
pub proof fn lemma_donor_list_unique(
    image: Grid<Rgb>,
    mask: Grid<u8>,
    x: int,
    y: int,
    first: Seq<Donor>,
    second: Seq<Donor>,
)
    requires
        is_donor_list(image, mask, x, y, first),
        is_donor_list(image, mask, x, y, second),
    ensures
        first == second,
{
    let before = |p: Donor, q: Donor| scanned_before(p.x as int, p.y as int, q.x as int, q.y as int);
    assert forall|i: int, j: int| 0 <= i < j < first.len() implies before(
        #[trigger] first[i],
        #[trigger] first[j],
    ) by {}
    assert forall|i: int, j: int| 0 <= i < j < second.len() implies before(
        #[trigger] second[i],
        #[trigger] second[j],
    ) by {}
    assert forall|i: int| 0 <= i < first.len() implies second.contains(#[trigger] first[i]) by {
        assert(is_donor(image, mask, x, y, first[i]));
        assert(lends_to(mask, x, y, first[i].x as int, first[i].y as int));
        let k = choose|k: int|
            0 <= k < second.len() && (#[trigger] second[k]).x == first[i].x && second[k].y == first[i].y;
        assert(is_donor(image, mask, x, y, second[k]));
        assert(second[k] == first[i]);
    }
    assert forall|i: int| 0 <= i < second.len() implies first.contains(#[trigger] second[i]) by {
        assert(is_donor(image, mask, x, y, second[i]));
        assert(lends_to(mask, x, y, second[i].x as int, second[i].y as int));
        let k = choose|k: int|
            0 <= k < first.len() && (#[trigger] first[k]).x == second[i].x && first[k].y == second[i].y;
        assert(is_donor(image, mask, x, y, first[k]));
        assert(first[k] == second[i]);
    }
    lemma_ordered_listing_unique(first, second, before);
}

} // verus!
