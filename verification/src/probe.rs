//! The connect scanner's probe policy: how many times a failed connect is
//! retried, what outcome a finished probe reports, and when the resume
//! cursor is checkpointed.

use vstd::prelude::*;

verus! {

/// Failed connects are retried this many times before a port is declared
/// closed.
pub const MAX_RETRIES: u32 = 3;

/// What the worker does after one connect attempt.
#[derive(PartialEq, Eq, Structural, Clone, Copy, Debug)]
pub enum ProbeDecision {
    /// The connect succeeded: report the port open.
    Open,
    /// The connect failed but retries remain: back off, then try again.
    Retry,
    /// The connect failed and retries are exhausted: report the port
    /// closed.
    Closed,
}

/// Decide after attempt number `attempt` (counting from zero). Every kind
/// of failure — refused, timeout, unreachable — is treated alike and
/// retried, up to `MAX_RETRIES` extra attempts.
pub fn retry_decision(attempt: u32, success: bool) -> (r: ProbeDecision)
    ensures
        success ==> r == ProbeDecision::Open,
        !success && attempt < MAX_RETRIES ==> r == ProbeDecision::Retry,
        !success && attempt >= MAX_RETRIES ==> r == ProbeDecision::Closed,
{
    if success {
        ProbeDecision::Open
    } else if attempt < MAX_RETRIES {
        ProbeDecision::Retry
    } else {
        ProbeDecision::Closed
    }
}

/// A probe reports open exactly when some attempt within the retry budget
/// succeeded.
pub open spec fn spec_probe_open(attempts: Seq<bool>) -> bool {
    exists|i: int| 0 <= i < attempts.len() && i <= MAX_RETRIES && attempts[i]
}

/// The outcome of a whole probe from its attempt results, first to last.
pub fn probe_outcome(attempts: &Vec<bool>) -> (r: bool)
    ensures
        r == spec_probe_open(attempts@),
{
    let n = attempts.len();
    let mut i: usize = 0;
    while i < n
        invariant
            i <= n == attempts@.len(),
            forall|k: int| 0 <= k < i ==> !(k <= MAX_RETRIES && #[trigger] attempts@[k]),
        decreases n - i,
    {
        if i > MAX_RETRIES as usize {
            proof {
                assert forall|k: int|
                    0 <= k < attempts@.len() implies !(k <= MAX_RETRIES && #[trigger] attempts@[k])
                    by {
                    if k >= i {
                        assert(k > MAX_RETRIES);
                    }
                }
            }
            return false;
        }
        if attempts[i] {
            return true;
        }
        i = i + 1;
    }
    false
}

/// The per-IP progress counter triggers a resume-cursor checkpoint every
/// hundredth completed address.
pub fn should_checkpoint(completed: u64) -> (r: bool)
    ensures
        r == (completed % 100 == 0),
{
    completed % 100 == 0
}

} // verus!
