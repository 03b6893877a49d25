//! The engines behind the namespaces: one merge rule each.

use vstd::prelude::*;

use super::operation::{Operation, OperationView};
use super::operation_log;
use super::replica::LamportClock;

pub mod epoch_max_wins;
pub mod lww;
pub mod lww_convergence;
pub mod lww_laws;
pub mod metadata;
pub mod outcome_laws;
pub mod rate_limit;
pub mod rate_limit_convergence;
pub mod rate_limit_laws;

verus! {

/// An engine that takes the operations of other nodes.
pub trait NamespaceCrdtEngine: Sized {
    /// The engine is in a valid state.
    spec fn valid(&self) -> bool;

    /// How an engine and its clock change when `ops` arrive at the time `now`.
    spec fn remote_ops_applied(
        before: Self,
        clock_before: u64,
        now: u64,
        ops: Seq<OperationView>,
        after: Self,
        clock_after: u64,
    ) -> bool;

    /// Merges the operations of another node.
    fn apply_remote(&mut self, clock: &mut LamportClock, now: u64, ops: Vec<Operation>)
        requires
            old(self).valid(),
        ensures
            final(self).valid(),
            Self::remote_ops_applied(
                *old(self),
                old(clock)@,
                now,
                operation_log::views(ops@),
                *final(self),
                final(clock)@,
            ),
    ;
}

} // verus!
