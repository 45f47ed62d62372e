//! Summary records reported about a collection.

use vstd::prelude::*;

verus! {

/// Summary statistics for a collection.
#[derive(Debug, Clone)]
pub struct CollectionStats {
    pub total_memories: usize,
    pub dimensions: usize,
    pub current_merkle_root: String,
    pub on_chain_root: String,
    pub roots_match: bool,
    pub last_write_at: u64,
    pub last_chain_sync_at: u64,
    pub hnsw_layer_count: usize,
    pub memory_usage_bytes: usize,
    pub encrypted: bool,
}

/// A single Merkle history entry.
#[derive(Debug, Clone)]
pub struct MerkleHistoryEntry {
    pub root: String,
    pub timestamp: u64,
    pub memory_count_at_time: usize,
    pub trigger: String,
}

} // verus!
