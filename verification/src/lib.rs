//! A key-value store with deferred writes: writes are staged into an ordered
//! pending queue and become visible to readers only after an explicit commit
//! drains the queue into the authoritative concurrent map. The whole state
//! (map entries plus un-committed pending actions) can be encoded to a binary
//! snapshot and restored from one.

pub mod action;
pub mod codec;
pub mod laws;
pub mod queue;
pub mod server;
pub mod store;
