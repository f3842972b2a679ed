use vstd::prelude::*;

verus! {

/// Everything that can go wrong in the index's own logic.
#[derive(Debug)]
pub enum Error {
    InvalidIndexId(String),
    IndexExists(String),
    IndexNotFound(String),
    DimMismatch { expected: usize, got: usize },
    EmbedderMismatch { expected: String, got: String },
    InvalidArgument(String),
    EmptyIndex,
    NothingToPublish,
    Locked,
    Embedder(String),
}

} // verus!
