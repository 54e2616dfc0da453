//! Messages of the pull-intent protocol.

use crate::text::Text;
use vstd::prelude::*;

verus! {

/// Pull intent sent from a client balancer to a server.
#[derive(Clone, Copy, Debug, PartialEq, Eq, Structural)]
pub struct PullIntent {
    /// Originating balancer id (`lb_id` in `lb`, `rb_id` in `ms`).
    pub sender_id: usize,
    /// Bound request id for the queued item this intent will pull.
    pub request_id: u64,
}

/// Pull request sent from a server back to a client balancer.
#[derive(Clone, Copy, Debug, PartialEq, Eq, Structural)]
pub struct PullRequest {
    pub server_idx: usize,
    /// Bound request id for approx pulls; `None` for centralized warm-start pulls.
    pub request_id: Option<u64>,
}

/// The text with which a simulator gives up on a pull that cannot be answered.
pub fn pull_abort_message(simulator: &str, details: &str) -> (s: String)
    ensures
        s@ == "approx pull abort ("@ + simulator@ + "): "@ + details@,
{
    Text::of("approx pull abort (").lit(simulator).lit("): ").lit(details).done()
}

} // verus!
