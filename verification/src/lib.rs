//! A peer-to-peer file sharing substrate: an ECRS encoder/decoder that turns a
//! file into a tree of encrypted, content-addressed fixed-size blocks, and a
//! Kademlia-style distributed hash table that stores and locates those blocks
//! by their content hashes.

use vstd::prelude::*;

pub mod block_file;
pub mod block_header;
pub mod block_type;
pub mod bucket;
pub mod chk;
pub mod cocoon_config;
pub mod codec;
pub mod crypto;
pub mod d_block;
pub mod dht_manager;
pub mod download_manager;
pub mod encryption;
pub mod endpoint;
pub mod i_block;
pub mod k_block;
pub mod message;
pub mod metadata;
pub mod node;
pub mod route_table;
pub mod sizing;
pub mod store;
pub mod task_manager;
pub mod upload_manager;
pub mod upload_task;
pub mod upload_task_info;
pub mod virtual_net;

verus! {

/// Error kinds surfaced by the core.
#[derive(Debug, Clone, Copy, PartialEq, Eq, Structural)]
pub enum CoreError {
    /// Archive validation or AEAD material mismatch.
    Corrupted,
    /// Malformed datagram, or a message that makes no sense in context.
    Protocol,
    /// A key-value miss.
    NotFound,
    /// Caller-supplied precondition violated.
    Invalid,
}

} // verus!
