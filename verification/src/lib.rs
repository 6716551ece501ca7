//! Structural decoder for a block-oriented scientific container format.
//!
//! A file is a sequence of logical units; each unit is a textual header
//! (fixed-width keyword/value/comment cards, padded to full blocks) followed
//! by a binary data region, also padded to full blocks.  This crate
//! tokenizes header cards, infers the lexical type of card values, locates
//! the boundary between header and data regions, and builds an index of
//! byte offsets and sizes for every unit, so that callers can randomly
//! access units without loading the whole file.
//!
//! All input is taken as plain in-memory bytes; reading those bytes from a
//! file or socket is the caller's concern.

pub mod blocks;
pub mod card;
pub mod errors;
pub mod header;
pub mod locator;
pub mod text;
pub mod value;

pub use blocks::BlockRead;
pub use blocks::BlockReader;
pub use card::HeaderCard;
pub use errors::ScanError;
pub use header::HduType;
pub use header::Header;
pub use header::Page;
pub use locator::LocatorTable;
pub use locator::ScanFailure;
pub use locator::UnitRecord;
pub use locator::read_header;
pub use locator::scan;
pub use text::string_contains;
pub use value::HeaderValueType;
