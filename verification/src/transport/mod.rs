//! Messages between nodes.

pub mod crdt_batch;
