//! A repeating timer that counts whole milliseconds.

use vstd::prelude::*;

verus! {

/// A repeating timer. It fires on the tick that brings the time it has counted
/// up to its period, and then starts over with what was left.
#[derive(Clone, Copy, Debug, PartialEq, Eq, Structural)]
pub struct Timer {
    /// Milliseconds between two firings. With a period of zero every tick fires.
    pub period_ms: u32,
    /// Milliseconds counted since the last firing.
    pub elapsed_ms: u32,
}

impl Timer {
    /// The time counted is less than the period; a timer without a period
    /// counts nothing.
    pub open spec fn wf(self) -> bool {
        if self.period_ms == 0 {
            self.elapsed_ms == 0
        } else {
            self.elapsed_ms < self.period_ms
        }
    }

    /// Whether a tick of `delta_ms` makes the timer fire.
    pub open spec fn fires(self, delta_ms: int) -> bool {
        self.elapsed_ms + delta_ms >= self.period_ms
    }

    /// The time counted after a tick of `delta_ms`. However many periods the
    /// tick spans, only what is left after the last of them is kept.
    pub open spec fn carried(self, delta_ms: int) -> int {
        if self.period_ms == 0 {
            0
        } else {
            (self.elapsed_ms + delta_ms) % (self.period_ms as int)
        }
    }

    /// The timer after a tick of `delta_ms`.
    pub open spec fn ticked(self, delta_ms: int) -> Timer {
        Timer { period_ms: self.period_ms, elapsed_ms: self.carried(delta_ms) as u32 }
    }

    /// Whether the timer is well-formed.
    pub fn is_wf(&self) -> (ok: bool)
        ensures
            ok == self.wf(),
    {
        if self.period_ms == 0 {
            self.elapsed_ms == 0
        } else {
            self.elapsed_ms < self.period_ms
        }
    }

    /// A timer that has counted nothing yet.
    pub fn new(period_ms: u32) -> (timer: Timer)
        ensures
            timer.wf(),
            timer.period_ms == period_ms,
            timer.elapsed_ms == 0,
    {
        Timer { period_ms, elapsed_ms: 0 }
    }

    /// Advances the timer by `delta_ms` and says whether it fired. A tick
    /// fires at most once, however many periods it spans.
    pub fn tick(&mut self, delta_ms: u32) -> (fired: bool)
        requires
            old(self).wf(),
        ensures
            fired == old(self).fires(delta_ms as int),
            *final(self) == old(self).ticked(delta_ms as int),
            final(self).elapsed_ms == old(self).carried(delta_ms as int),
            final(self).wf(),
    {
        let total: u64 = self.elapsed_ms as u64 + delta_ms as u64;
        if self.period_ms == 0 {
            true
        } else {
            let fired = total >= self.period_ms as u64;
            self.elapsed_ms = (total % (self.period_ms as u64)) as u32;
            fired
        }
    }
}

/// A tick that does not fire adds its whole length to the time counted, and
/// a tick of one exact period fires and leaves the time counted as it was.
pub proof fn law_tick_accumulates(timer: Timer, delta_ms: int)
    requires
        timer.wf(),
        0 <= delta_ms,
    ensures
        !timer.fires(delta_ms) ==> timer.carried(delta_ms) == timer.elapsed_ms + delta_ms,
        delta_ms == timer.period_ms ==> timer.fires(delta_ms) && timer.carried(delta_ms)
            == timer.elapsed_ms,
{
    if timer.period_ms > 0 {
        let p = timer.period_ms as int;
        let e = timer.elapsed_ms as int;
        if !timer.fires(delta_ms) {
            vstd::arithmetic::div_mod::lemma_small_mod((e + delta_ms) as nat, p as nat);
        }
        if delta_ms == p {
            vstd::arithmetic::div_mod::lemma_mod_add_multiples_vanish(e, p);
            vstd::arithmetic::div_mod::lemma_small_mod(e as nat, p as nat);
        }
    }
}

} // verus!
