//! Terminal sprites out of TrueType fonts.
//!
//! The library holds what the tool decides and computes: how glyph bitmaps
//! become lines of text, how the font browser reacts to keys, what its screens
//! show, how the catalogs are searched and built, and how the names, commands
//! and keys around them are written and read.

pub mod api_key;
pub mod browser;
pub mod catalog;
pub mod font_file;
pub mod frame;
pub mod online;
pub mod paths;
pub mod profile;
pub mod raster;
pub mod search;
pub mod shell;
pub mod text;
pub mod text_map;
