//! Resizing a raster image to a target resolution, either letterboxed on a
//! white canvas or cropped to cover it.
//!
//! * [`token`] reads a fit mode and a target size from their names, and
//!   [`request`] reads a whole command line.
//! * [`fraction`] and [`binary64`] hold the arithmetic of scale factors:
//!   quotients and products rounded as binary64 numbers, over integers.
//! * [`geometry`] gives the size that the source is resampled to.
//! * [`raster`] is the image in memory, [`resample`] brings it to another
//!   size, and [`compose`] pads or crops the result to the target.
//! * [`resize`] puts these together.

pub mod binary64;
pub mod compose;
pub mod fraction;
pub mod geometry;
pub mod raster;
pub mod request;
pub mod resample;
pub mod resize;
pub mod token;

pub use compose::{can_compose, compose};
pub use geometry::resized_size;
pub use raster::Raster;
pub use request::Request;
pub use resample::{resize_rgba8, ResizeError};
pub use resize::{can_resize, resize_to_target};
pub use token::{parse_size, Mode};
