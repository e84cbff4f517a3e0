//! Text renderings of raster images.
//!
//! A font is analysed (outside this crate's verified core, by whoever can
//! rasterise it) into one measurement per candidate character. From those
//! measurements the library builds a [`FontData`]: a table from normalized
//! ink coverage to characters, with the cell geometry of the font. The table
//! answers intensity lookups and turns a luminance image into rows of text.
//!
//! Intensities are fixed-point numbers: [`FULL`] stands for 1.0. Cell
//! geometry is measured in 1/[`SUBPIXELS`] of a pixel.

pub mod codec;
pub mod error;
pub mod font;
pub mod glyph;
pub mod listing;
pub mod mapping;
pub mod prune;
pub mod render;
pub mod service;

pub use error::Error;
pub use font::open_font;
pub use glyph::{printable_ascii, GlyphProbe, RawGlyph};
pub use image::ImageFormat;
pub use mapping::{FontData, MapEntry, FULL, SUBPIXELS};
pub use render::{grid_size, Image};
