//! Replicated key-value state: versions, operations, merge rules and engines.

pub mod codec;
pub mod engine;
pub mod epoch_convergence;
pub mod epoch_laws;
pub mod epoch_max_wins;
pub mod frontier;
pub mod kv_store;
pub mod layout_laws;
pub mod log_laws;
pub mod log_order_laws;
pub mod merge_strategy;
pub mod op_sets;
pub mod operation;
pub mod operation_log;
pub mod replica;
pub mod watermark;
