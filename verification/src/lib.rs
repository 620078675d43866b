//! In-memory block-tree storage core: persists blocks with their state
//! snapshots, maintains a tree of all known blocks, and switches the
//! canonical head through an atomic, invariant-preserving commit protocol.

pub mod backend;
pub mod route;
pub mod state;
