//! Append-only levels of a merkle tree.
pub mod chunked_level;
