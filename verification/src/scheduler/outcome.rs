//! Values of the `outcome` label of admission attempts.

use vstd::prelude::*;

verus! {

/// Admitted, at once or after queueing.
pub const ADMITTED: &'static str = "admitted";

/// The queue of the class was at its limit.
pub const REJECTED_QUEUE_FULL: &'static str = "rejected_queue_full";

/// A queued request waited past the queue timeout.
pub const REJECTED_QUEUE_TIMEOUT: &'static str = "rejected_queue_timeout";

/// Admitted, but preempted before producing a byte.
pub const PREEMPTED: &'static str = "preempted";

/// The client disconnected before admission completed.
pub const CLIENT_CANCELLED: &'static str = "client_cancelled";

} // verus!
