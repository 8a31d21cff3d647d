//! Versioned wire encodings for incremental Merkle-tree frontiers and bridges
//! over Orchard note commitments, and the transaction-proposal records.
pub mod bytes;
pub mod proposal;
pub mod tree;
pub mod frontier_codec;
pub mod bridge;
pub mod bridge_codec;
