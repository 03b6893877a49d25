//! State replication, module metadata, scheduling metrics and background work of a
//! model gateway: the rules, without the I/O around them.

pub mod background;
pub mod bytes;
pub mod crdt_kv;
pub mod keyed;
pub mod scheduler;
pub mod text;
pub mod transport;
pub mod wasm;
