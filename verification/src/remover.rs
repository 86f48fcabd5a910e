//! The remover: which fill method it names, the repair mask it builds, and
//! the fill that it begins.

use vstd::prelude::*;
use crate::grid::{Grid, lemma_grid_ext};
use crate::inpaint::{Inpainting, lemma_clear_mask_has_no_rim, lemma_frontier_list_unique};
use crate::morphology::{dilate, marked};
use crate::raster::{Mask, Raster, Rgb};
use crate::region::Region;
use crate::smart_mask::{
    all_uniform, clip_to_regions, in_any_region, is_smart_mask, lemma_grown_marks, lemma_smart_mask_unique,
    lemma_uniform_regions_are_quiet, lemma_uniform_regions_need_no_repair, needs_repair, threshold_regions,
};

verus! {

/// How the colour of a repaired pixel is blended from its neighbours.
#[derive(Debug, Clone, Copy, PartialEq, Eq, Structural)]
pub enum InpaintMethod {
    /// Plain average of the neighbours.
    Simple,
    /// Average weighted by a Gaussian of the distance.
    Gaussian,
}

impl InpaintMethod {
    /// The method of that name: `"simple"` is `Simple`, and every other
    /// string, `"gaussian"` among them, is `Gaussian`.
    pub fn from_str(s: &str) -> (method: InpaintMethod)
        ensures
            method == if s@ == "simple"@ {
                InpaintMethod::Simple
            } else {
                InpaintMethod::Gaussian
            },
    {
        let name = s.to_owned();
        let simple = "simple".to_owned();
        if name == simple {
            InpaintMethod::Simple
        } else {
            InpaintMethod::Gaussian
        }
    }
}

/// `job` is the fill of `image` for `regions` before its first pass: a copy
/// of the image under the repair mask.
pub open spec fn is_fresh_fill(image: Grid<Rgb>, regions: Seq<Region>, job: Inpainting) -> bool {
    &&& job.valid()
    &&& job.passes() == 0
    &&& job.image() == image
    &&& job.source() == image
    &&& job.mask() == job.first_mask()
    &&& is_smart_mask(image, regions, job.first_mask())
}

/// Removes watermarks from chosen regions of an image.
#[derive(Debug, Clone, Copy)]
pub struct WatermarkRemover {
    method: InpaintMethod,
}

impl WatermarkRemover {
    /// The fill method that the remover was made with.
    pub closed spec fn chosen(&self) -> InpaintMethod {
        self.method
    }

    /// A remover that fills by `method`.
    pub fn new(method: InpaintMethod) -> (out: Self)
        ensures
            out.chosen() == method,
    {
        Self { method }
    }

    /// The fill method that the remover was made with.
    pub fn method(&self) -> (method: InpaintMethod)
        ensures
            method == self.chosen(),
    {
        self.method
    }

    /// The repair mask of `image` for `regions`.
    ///
    /// Inside each region, clipped to the image, the pixels whose luma lies
    /// more than the threshold from the region's median luma are marked. The
    /// marks are grown by one pixel in every direction, and of the grown
    /// marks those inside a region are kept. Regions that hold no pixel of
    /// the image count for nothing.
    pub fn create_smart_mask(&self, image: &Raster, regions: &[Region]) -> (out: Mask)
        requires
            image@.width + image@.height <= u32::MAX,
        ensures
            is_smart_mask(image@, regions@, out@),
            forall|x: int, y: int| #[trigger] marked(out@, x, y) ==> in_any_region(image@, regions@, x, y),
    {
        let _ = image.width();
        let raw = threshold_regions(image, regions);
        let grown = dilate(&raw, 1);
        let out = clip_to_regions(&grown, regions);
        proof {
            assert forall|x: int, y: int| image@.inside(x, y) implies #[trigger] out@.at(x, y)
                == if needs_repair(image@, regions@, x, y) {
                255u8
            } else {
                0u8
            } by {
                lemma_grown_marks(image@, regions@, raw@, x, y);
            }
        }
        out
    }

    /// A fill of a copy of `image` under the repair mask for `regions`, with
    /// no pass done yet. The fill method plays no part in it. Where every
    /// region is of uniform luma there is nothing to repair, and the fill is
    /// finished as it begins.
    ///
    /// The caller runs the fill: it takes the tasks of a pass from `plan`,
    /// blends a colour for each, hands the colours to `commit`, and goes on
    /// until the fill is finished.
    pub fn begin(&self, image: &Raster, regions: &[Region]) -> (job: Inpainting)
        requires
            image@.width + image@.height <= u32::MAX,
        ensures
            is_fresh_fill(image@, regions@, job),
            all_uniform(image@, regions@) ==> job.finished(),
    {
        let mask = self.create_smart_mask(image, regions);
        let job = Inpainting::start(image.clone(), mask).unwrap();
        proof {
            if all_uniform(image@, regions@) {
                lemma_uniform_regions_need_no_repair(image@, regions@, job.mask());
                lemma_clear_mask_has_no_rim(job.mask(), job.rim());
            }
        }
        job
    }
}

/// The fill that a remover begins depends on the image and the regions
/// alone: two fresh fills of one image for the same regions, by removers of
/// whatever method, agree in image, mask, rim and passes.
pub proof fn lemma_fresh_fill_is_unique(image: Grid<Rgb>, regions: Seq<Region>, first: Inpainting, second: Inpainting)
    requires
        is_fresh_fill(image, regions, first),
        is_fresh_fill(image, regions, second),
    ensures
        first.image() == second.image(),
        first.source() == second.source(),
        first.mask() == second.mask(),
        first.first_mask() == second.first_mask(),
        first.rim() == second.rim(),
        first.passes() == second.passes(),
{
    lemma_smart_mask_unique(image, regions, first.first_mask(), second.first_mask());
    lemma_frontier_list_unique(first.mask(), first.rim(), second.rim());
}

/// Whatever colours are committed, a fill that began as the fill of `image`
/// for `regions` never changes a pixel that needs no repair: not a pixel
/// outside every region, and no pixel at all where there are no regions or
/// every region is of uniform luma.
pub proof fn lemma_fill_spares_the_rest(image: Grid<Rgb>, regions: Seq<Region>, job: Inpainting)
    requires
        job.valid(),
        job.source() == image,
        is_smart_mask(image, regions, job.first_mask()),
    ensures
        forall|x: int, y: int|
            image.inside(x, y) && !needs_repair(image, regions, x, y) ==> #[trigger] job.image().at(x, y)
                == image.at(x, y),
        forall|x: int, y: int|
            image.inside(x, y) && !in_any_region(image, regions, x, y) ==> #[trigger] job.image().at(x, y)
                == image.at(x, y),
        regions.len() == 0 || all_uniform(image, regions) ==> job.image() == image,
{
    assert forall|x: int, y: int| image.inside(x, y) && !needs_repair(image, regions, x, y) implies #[trigger] job.image().at(
        x,
        y,
    ) == image.at(x, y) by {
        assert(job.first_mask().at(x, y) == 0);
    }
    if regions.len() == 0 || all_uniform(image, regions) {
        if all_uniform(image, regions) {
            lemma_uniform_regions_are_quiet(image, regions);
        }
        lemma_grid_ext(job.image(), image);
    }
}

} // verus!
