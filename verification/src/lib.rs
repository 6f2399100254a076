//! Stylizes a raster image as a set of black-bordered rectangles whose density
//! follows the darkness of the source.
//!
//! The canvas is divided by recursive bisection. A region that is due more
//! than one rectangle is cut in two where each half receives its share of the
//! region's darkness, a separator line is drawn along the cut, and the halves
//! are divided in turn.
//!
//! All quantities are exact integers. A coordinate counts subpixels, of which
//! a pixel has 65536 along each side. Darkness is counted in 255ths of a black
//! pixel, and darkness clipped against a region in 255ths of a square subpixel.
//! The density setting is a ratio of two integers.
//!
//! * [`pixel`] and [`raster`] hold the pixels and grids of pixels.
//! * [`darkness`] measures darkness, [`settings`] turns it into a number of
//!   rectangles, [`partition`] finds the cuts, [`render`] draws them.
//! * [`rects`] is the entry point.
//! * [`balance`] shows how a cut shares out the darkness of a region between
//!   its halves.
//! * [`arith`] divides products that do not fit in a machine word.

pub mod arith;
pub mod balance;
pub mod darkness;
pub mod geometry;
pub mod partition;
pub mod pixel;
pub mod raster;
pub mod rects;
pub mod render;
pub mod settings;

pub use crate::geometry::{Axis, Rectangle};
pub use crate::pixel::{Pixel, PixelLayout};
pub use crate::raster::Raster;
pub use crate::rects::rectanglify;
pub use crate::settings::{Ratio, Settings};
