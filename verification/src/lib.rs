//! Block pipeline for a tiled/scanline HDR image container.
//!
//! The library sits between parsed image metadata and the raw byte stream of
//! a file: it enumerates and validates chunk offset tables, reads chunks in
//! file order or filtered by a caller predicate, orchestrates block
//! (de)compression, and writes files in two passes (reserve offset tables,
//! emit chunks, patch the tables on completion).

pub mod block;
pub mod blocks;
pub mod bytes;
pub mod chunk;
pub mod compress;
pub mod decompress;
pub mod error;
pub mod io;
pub mod lines;
pub mod math;
pub mod meta;
pub mod meta_io;
pub mod reader;
pub mod write;

pub use error::Error;
pub use math::Vec2;
