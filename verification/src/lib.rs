//! Watermark region detection and content-aware removal on raw pixel grids.
//!
//! The crate locates rectangular regions that plausibly hold an overlaid
//! watermark, builds a tight repair mask for such regions, and drives the
//! boundary-advancing fill that overwrites the marked pixels.

pub mod detector;
pub mod grid;
pub mod inpaint;
pub mod morphology;
pub mod raster;
pub mod region;
pub mod remover;
pub mod smart_mask;

pub use region::Region;
pub use remover::{InpaintMethod, WatermarkRemover};
