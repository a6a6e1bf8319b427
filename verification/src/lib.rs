//! Pixel sorting for RGBA rasters: every column of an image is cut into runs of
//! similar pixels, and each run is ordered by descending brightness.
//!
//! - `pixel`: the pixel, its brightness, and the distance between two pixels.
//! - `segment`: cutting a line into segments under a threshold.
//! - `order`: the order a segment is put in, and the laws it obeys.
//! - `sorter`: sorting the segments of a line in place.
//! - `line`: one line through the filter.
//! - `transpose`: turning rows into columns and back.
//! - `raster`: an image as a flat buffer of bytes.
//! - `pipeline`: the filter on a whole image.

pub mod line;
pub mod order;
pub mod pipeline;
pub mod pixel;
pub mod raster;
pub mod segment;
pub mod sorter;
pub mod transpose;

pub use line::{sort_line, sort_lines};
pub use pipeline::{sort, SortError};
pub use pixel::Pixel;
pub use segment::segments;
pub use sorter::{sort_run, sort_segments};
pub use transpose::transpose;
