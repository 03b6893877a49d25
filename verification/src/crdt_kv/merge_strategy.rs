//! How the operations on a key are merged.

use vstd::prelude::*;

verus! {

/// The merge rule of a key.
#[derive(Debug, Clone, Copy, PartialEq, Eq, Structural)]
pub enum MergeStrategy {
    /// The operation with the newest version wins.
    LastWriterWins,
    /// Rate-limit shards are merged.
    EpochMaxWins,
}

} // verus!
