//! Verified core of a vector store: Merkle commitments over vector ids,
//! the encrypted payload format, and the HNSW graph with its beam search.

pub mod digest;
pub mod merkle;
pub mod types;
pub mod inspector;
pub mod encryption;
pub mod adjacency;
pub mod idset;
pub mod hnsw;
pub mod ranking;
pub mod search;
pub mod program;
