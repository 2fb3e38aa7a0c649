//! A gossip-about-gossip event graph: signed, hash-addressed events held in an
//! append-only store, with ancestry, visibility, round and fork queries.

pub mod event_index;
pub mod event_hash;
pub mod packed_event;
pub mod graph;
pub mod consensus;
