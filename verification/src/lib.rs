//! Ledger application stage of a chain follower: an in-memory, versioned
//! ledger store, the deltas that move it forward and backward, the finality
//! horizon used to prune its history, and the per-event stage that drives
//! them.

pub mod block;
pub mod compute;
pub mod context;
pub mod delta;
pub mod entity;
pub mod finality;
pub mod genesis;
pub mod laws;
pub mod roundtrip;
pub mod stage;
pub mod store;
pub mod sync;
