//! Local coordinator election for a node organized under named roles:
//! candidate-endpoint bookkeeping, reachability scoring, per-role coordinator
//! election with staleness-driven re-election, and heartbeat liveness.

pub mod routing;
pub mod table;
pub mod election;
pub mod heartbeat;
pub mod strmap;

use vstd::prelude::*;

verus! {

/// A coordinator older than this (in seconds) is considered stale and may be
/// replaced on the next election tick.
pub const REELECT_TIMEOUT_SECS: u64 = 15;

} // verus!
