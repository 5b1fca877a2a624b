//! Pixel sorting: within each row of an image, or each column, the runs of
//! pixels whose brightness lies in a band are put in the order of a colour
//! metric, while everything else stays where it is.
//!
//! - [`settings`]: the band, the modes and what one pass reads.
//! - [`pixel`]: pixels, colours and the metrics that rank them, as
//!   fixed-point numbers.
//! - [`ordering`]: how two pixels compare under the settings.
//! - [`span`]: the band, and the spans of a line.
//! - [`sort`]: what a stable sort is, and a merge sort that is one.
//! - [`line`]: sorting the spans of one line.
//! - [`raster`]: the image buffer and its quarter turns.
//! - [`engine`]: the two passes over a whole image, row by row in parallel.
//! - [`theorems`]: what holds of every sorted image.
//! - [`exact`]: the fixed-point metrics rank as the exact values do.
#![allow(non_snake_case)]

pub mod settings;
pub mod pixel;
pub mod ordering;
pub mod span;
pub mod sort;
pub mod line;
pub mod raster;
pub mod engine;
pub mod theorems;
pub mod exact;

pub use crate::engine::{SortImage, ThresholdImage, ThresholdPixel};
pub use crate::line::SortPixelsInLine;
pub use crate::ordering::{ComesBefore, GetPixelOrdering};
pub use crate::pixel::{
    GetPixelAverage, GetPixelHue, GetPixelLightness, GetPixelSaturation, GetPixelSortingNumber,
    Pixel, Rgb, METRIC_SCALE,
};
pub use crate::raster::{ImageBuffer, Rotate270, Rotate90};
pub use crate::settings::{PixelSorterSettings, SortError, SortMode, Threshold};
pub use crate::sort::StableSort;
pub use crate::span::{DetectSpans, InBand, Span};
