//! Debounce/cancellation scheduler.
//!
//! Every edit to the source, the bibliography or the image table increments a
//! strictly increasing generation token. A timer armed by the edit captures
//! that token; when it fires, a render attempt may start only if the captured
//! token is still current. When an attempt completes, its outcome is committed
//! to the sinks only if its token is still current; a stale completion is
//! discarded silently and leaves the sinks unchanged. At most one of the two
//! sinks (rendered output, error message) holds a value at any time.

use vstd::prelude::*;

verus! {

/// Result of one render attempt: rendered markup on success, an opaque
/// message on failure.
pub enum RenderOutcome {
    Success(String),
    Failure(String),
}

/// Scheduler state: the current generation token, the "currently rendering"
/// flag, and the two mutually exclusive sinks.
pub struct Scheduler {
    pub token: u64,
    pub rendering: bool,
    pub output: Option<String>,
    pub error: Option<String>,
}

/// The timer callback captured `captured` when its edit arrived; it may start
/// a render attempt only if that token is still the current one.
pub open spec fn may_start(current: int, captured: int) -> bool {
    captured == current
}

/// The token that the i-th edit of a burst (1-based) issues, starting from
/// token `t0`.
pub open spec fn issued_token(t0: u64, i: nat) -> int {
    t0 + i
}

/// The scheduler state after one more edit.
pub open spec fn spec_notify(s: Scheduler) -> Scheduler
    recommends
        s.token < u64::MAX,
{
    Scheduler { token: (s.token + 1) as u64, ..s }
}

/// The scheduler state after a burst of `n` edits.
pub open spec fn after_edits(s: Scheduler, n: nat) -> Scheduler
    decreases n,
{
    if n == 0 {
        s
    } else {
        spec_notify(after_edits(s, (n - 1) as nat))
    }
}

pub proof fn lemma_after_edits_unfold(s: Scheduler, n: nat)
    ensures
        n == 0 ==> after_edits(s, n) == s,
        n > 0 ==> after_edits(s, n) == spec_notify(after_edits(s, (n - 1) as nat)),
        n > 0 ==> after_edits(s, n).token == (after_edits(s, (n - 1) as nat).token + 1) as u64,
{
}

/// After a burst of `n` edits with token headroom, the current token is the
/// one the burst's last edit issued.
pub proof fn lemma_after_edits_token(s: Scheduler, n: nat)
    requires
        s.token + n <= u64::MAX,
    ensures
        after_edits(s, n).token == s.token + n,
    decreases n,
{
    lemma_after_edits_unfold(s, n);
    if n > 0 {
        lemma_after_edits_token(s, (n - 1) as nat);
    }
}

impl Scheduler {
    /// Mutual exclusion of the sinks: rendered output and error message are
    /// never populated at the same time.
    pub open spec fn wf(self) -> bool {
        !(self.output is Some && self.error is Some)
    }

    pub fn new() -> (s: Scheduler)
        ensures
            s.token == 0,
            !s.rendering,
            s.output is None,
            s.error is None,
            s.wf(),
    {
        Scheduler { token: 0, rendering: false, output: None, error: None }
    }

    /// An edit arrived: issue the next generation token. The caller arms a
    /// timer that captures the returned token.
    pub fn notify(&mut self) -> (t: u64)
        requires
            old(self).token < u64::MAX,
        ensures
            *final(self) == spec_notify(*old(self)),
            final(self).token == old(self).token + 1,
            t == final(self).token,
            final(self).rendering == old(self).rendering,
            final(self).output == old(self).output,
            final(self).error == old(self).error,
    {
        self.token = self.token + 1;
        self.token
    }

    /// A debounce timer fired with the token it captured. The attempt starts
    /// (and the rendering flag is set) only if that token is still current;
    /// otherwise a newer edit arrived during the wait and the timer aborts.
    pub fn timer_fired(&mut self, captured: u64) -> (start: bool)
        ensures
            start == may_start(old(self).token as int, captured as int),
            final(self).token == old(self).token,
            final(self).output == old(self).output,
            final(self).error == old(self).error,
            final(self).rendering == (start || old(self).rendering),
    {
        if captured == self.token {
            self.rendering = true;
            true
        } else {
            false
        }
    }

    /// A render attempt finished with the token it captured. Its outcome is
    /// committed to the sinks only if that token is still current; a stale
    /// completion leaves both sinks unchanged. Either way the rendering flag
    /// is cleared, so no failure can leave the scheduler stuck.
    ///
    /// Committing enforces the sinks' mutual exclusion: a success fills the
    /// output sink and empties the error sink, a failure does the opposite.
    pub fn complete(&mut self, captured: u64, outcome: RenderOutcome) -> (committed: bool)
        ensures
            committed == (captured == old(self).token),
            final(self).token == old(self).token,
            !final(self).rendering,
            !committed ==> final(self).output == old(self).output
                && final(self).error == old(self).error,
            captured < old(self).token ==> final(self).output == old(self).output
                && final(self).error == old(self).error,
            committed ==> match outcome {
                RenderOutcome::Success(markup) => final(self).output == Some(markup)
                    && final(self).error is None,
                RenderOutcome::Failure(message) => final(self).error == Some(message)
                    && final(self).output is None,
            },
            old(self).wf() ==> final(self).wf(),
    {
        self.rendering = false;
        if captured == self.token {
            match outcome {
                RenderOutcome::Success(markup) => {
                    self.output = Some(markup);
                    self.error = None;
                }
                RenderOutcome::Failure(message) => {
                    self.error = Some(message);
                    self.output = None;
                }
            }
            true
        } else {
            false
        }
    }
}

/// In any burst of `n` edits that all fall inside one debounce window, every
/// timer fires after the last edit, so each checks its captured token
/// against the token of the burst's last edit: exactly the last edit's
/// timer starts a render attempt, carrying the state of the last edit.
pub proof fn lemma_burst_exactly_one_start(s: Scheduler, n: nat, i: nat)
    requires
        1 <= i <= n,
        s.token + n <= u64::MAX,
    ensures
        may_start(after_edits(s, n).token as int, issued_token(s.token, i)) <==> i == n,
{
    lemma_after_edits_token(s, n);
}

} // verus!
