//! Retry pacing for repeatedly failing steps: an exponential delay
//! sequence with a cap, restored to its initial value by `reset`.

use vstd::prelude::*;

verus! {

/// Computes the delay to wait before the next retry. Delays double on
/// each draw until they reach `max_ms`, and `reset` restores the
/// initial delay. The sequence of drawn delays is non-decreasing
/// between resets.
pub struct BackoffStrategy {
    pub initial_ms: u64,
    pub max_ms: u64,
    pub next_ms: u64,
}

impl BackoffStrategy {
    /// The strategy's invariant: the pending delay always lies between
    /// the initial delay and the cap.
    pub open spec fn wf(self) -> bool {
        1 <= self.initial_ms <= self.max_ms
        && self.initial_ms <= self.next_ms <= self.max_ms
    }

    /// The state after a reset: the pending delay is the initial delay.
    pub open spec fn spec_reset(self) -> BackoffStrategy {
        BackoffStrategy { next_ms: self.initial_ms, ..self }
    }

    /// The state after one delay is drawn: the pending delay doubles,
    /// capped at `max_ms`.
    pub open spec fn spec_after_draw(self) -> BackoffStrategy {
        if 2 * self.next_ms <= self.max_ms {
            BackoffStrategy { next_ms: (2 * self.next_ms) as u64, ..self }
        } else {
            BackoffStrategy { next_ms: self.max_ms, ..self }
        }
    }

    pub fn new(initial_ms: u64, max_ms: u64) -> (s: BackoffStrategy)
        requires
            1 <= initial_ms <= max_ms,
        ensures
            s.wf(),
            s.initial_ms == initial_ms,
            s.max_ms == max_ms,
            s.next_ms == initial_ms,
    {
        BackoffStrategy { initial_ms, max_ms, next_ms: initial_ms }
    }

    /// Restore the initial delay; the configuration is unchanged.
    pub fn reset(&mut self)
        requires
            old(self).wf(),
        ensures
            final(self).wf(),
            *final(self) == old(self).spec_reset(),
    {
        self.next_ms = self.initial_ms;
    }

    /// Draw the next delay. Returns the pending delay and doubles it,
    /// capped at `max_ms`; the delay drawn next time is at least as
    /// large as this one.
    pub fn next_delay(&mut self) -> (d: u64)
        requires
            old(self).wf(),
        ensures
            final(self).wf(),
            d == old(self).next_ms,
            *final(self) == old(self).spec_after_draw(),
            d <= final(self).next_ms,
    {
        let d = self.next_ms;
        if self.next_ms <= self.max_ms / 2 {
            self.next_ms = 2 * self.next_ms;
        } else {
            self.next_ms = self.max_ms;
        }
        d
    }
}

/// After a reset, the first delay drawn is exactly the initial delay,
/// whatever the strategy's history was.
pub proof fn lemma_reset_restores_initial(s: BackoffStrategy)
    requires
        s.wf(),
    ensures
        s.spec_reset().next_ms == s.initial_ms,
        s.spec_reset().wf(),
{
}

/// Between resets the delay sequence is monotonically non-decreasing:
/// drawing twice yields a second delay at least as large as the first,
/// and no drawn delay exceeds the cap.
pub proof fn lemma_delays_nondecreasing(s: BackoffStrategy)
    requires
        s.wf(),
    ensures
        s.spec_after_draw().wf(),
        s.spec_after_draw().next_ms >= s.next_ms,
        s.next_ms <= s.max_ms,
{
}

} // verus!
