//! A small per-directory 1-bit quantized vector index: the bit packing,
//! scoring, ranking, metadata and index state are verified here; the file
//! and float handling around them live outside this crate.

pub mod embed;
pub mod engine;
pub mod error;
pub mod index;
pub mod meta;
pub mod pack;
pub mod quant;
pub mod search;
pub mod store;
pub mod text;

pub use embed::HashEmbedder;
pub use engine::Engine;
pub use error::Error;
pub use index::Index;
pub use meta::{IndexConfig, Meta};
pub use search::Hit;
