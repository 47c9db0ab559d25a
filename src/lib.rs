//! Conversion of icon sprite sheets into vector images, one per icon state.
//!
//! Each state's first frame is split by exact color; every color with non-zero
//! alpha becomes one filled outline, most frequent color first, and the outlines
//! are wrapped into a standalone document or a reusable symbol.
pub mod convert;
pub mod css;
pub mod outline;
pub mod raster;
pub mod text;

pub use convert::{dmi2svg, dmi2svg_symbol, dmi2svg_symbol_map, Error, Icon, IconState, SVGState};
pub use css::dmi2css;
pub use raster::{Frame, Rgba};
