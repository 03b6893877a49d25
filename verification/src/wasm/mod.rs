//! WebAssembly modules.

pub mod module;
