//! ERFF: a single-file binary geospatial vector format with a packed Hilbert
//! R-tree spatial index, a PROJJSON CRS, ISO WKB geometries and nullable
//! typed attribute columns.
//!
//! This crate holds the format itself: the byte layout of every section, the
//! WKB structure parser and encoders, the Hilbert ordering and the packed
//! R-tree layout and search, and the reader and writer state over whole
//! files. Floating-point coordinates are carried as their IEEE-754 bit
//! patterns (`u64`/`u32`), so that every byte is accounted for.

pub mod error;
pub mod types;
pub mod reader;
pub mod layout;
pub mod bitmap;
pub mod writer;
pub mod laws;
pub mod wkb;
pub mod index;
