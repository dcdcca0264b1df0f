//! Metadata and header extraction for the PNG container format.
//!
//! The library walks the chunk stream that follows the fixed 8-byte PNG
//! signature, frames each chunk's length/type/data/CRC record, and decodes a
//! small set of recognized chunk types (image header, textual metadata,
//! last-modification timestamp, display gamma) into typed values. It is a
//! metadata extractor, not an image decoder: no decompression, defiltering or
//! pixel handling is done, and the trailing CRC of each chunk is skipped
//! without validation.

pub mod error;
pub mod png;
pub mod text;
pub mod utils;
