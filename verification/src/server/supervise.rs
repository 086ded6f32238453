//! Supervision for background tasks: restart on panic (exponential backoff,
//! 30s cap) and on clean exit (small pause), so that no task dies silently.

use vstd::prelude::*;

verus! {

/// The longest pause, in seconds.
pub const MAX_DELAY_SECS: u64 = 30;

/// Exponential backoff, capped.
pub struct Backoff {
    delay_secs: u64,
}

impl View for Backoff {
    type V = int;

    closed spec fn view(&self) -> int {
        self.delay_secs as int
    }
}

/// The pause before the next restart.
pub open spec fn pause(delay: int) -> int {
    if delay == 0 {
        1
    } else {
        delay
    }
}

/// The pause after a pause: twice as long, up to the cap.
pub open spec fn doubled(secs: int) -> int {
    if 2 * secs > MAX_DELAY_SECS {
        MAX_DELAY_SECS as int
    } else {
        2 * secs
    }
}

/// The `n`-th pause after a reset.
pub open spec fn nth_pause(n: nat) -> int
    decreases n,
{
    if n == 0 {
        1
    } else {
        doubled(nth_pause((n - 1) as nat))
    }
}

/// Pauses never get shorter without a reset, are at least a second, never
/// exceed the cap, and reach it.
pub proof fn law_pauses_grow_to_the_cap(n: nat)
    ensures
        1 <= nth_pause(n) <= nth_pause(n + 1) <= MAX_DELAY_SECS,
        n >= 5 ==> nth_pause(n) == MAX_DELAY_SECS,
    decreases n,
{
    reveal_with_fuel(nth_pause, 6);
    if n > 0 {
        law_pauses_grow_to_the_cap((n - 1) as nat);
    }
    if n > 5 {
        assert(nth_pause((n - 1) as nat) == MAX_DELAY_SECS);
    }
}

impl Backoff {
    #[verifier::type_invariant]
    spec fn capped(self) -> bool {
        self.delay_secs <= 30
    }

    /// The seconds to wait before the next restart.
    pub fn next(&mut self) -> (r: u64)
        ensures
            r == pause(old(self)@),
            1 <= r <= MAX_DELAY_SECS,
            final(self)@ == doubled(r as int),
    {
        proof {
            use_type_invariant(&*self);
        }
        let d: u64 = if self.delay_secs == 0 {
            1
        } else {
            self.delay_secs
        };
        let twice: u64 = d * 2;
        self.delay_secs = if twice > MAX_DELAY_SECS {
            MAX_DELAY_SECS
        } else {
            twice
        };
        d
    }

    /// Start over with the shortest pause.
    pub fn reset(&mut self)
        ensures
            final(self)@ == 0,
    {
        self.delay_secs = 0;
    }

    /// The seconds to wait after a task ended: the backoff after a failure, a
    /// second after a clean exit, which also ends the backoff.
    pub fn pause_after(&mut self, clean: bool) -> (r: u64)
        ensures
            r == (if clean {
                1
            } else {
                pause(old(self)@)
            }),
            final(self)@ == (if clean {
                0
            } else {
                doubled(pause(old(self)@))
            }),
    {
        if clean {
            self.reset();
            1
        } else {
            self.next()
        }
    }
}

impl Default for Backoff {
    fn default() -> (r: Self)
        ensures
            r@ == 0,
    {
        Backoff { delay_secs: 0 }
    }
}

/// The pauses between restarts: one second first, then twice the one before,
/// half a minute at most.
pub proof fn law_pauses_double(n: nat, d: int)
    ensures
        nth_pause(0) == 1,
        nth_pause(1) == 2,
        nth_pause(2) == 4,
        nth_pause(3) == 8,
        nth_pause(4) == 16,
        n >= 5 ==> nth_pause(n) == 30,
        pause(0) == 1,
        d > 0 ==> pause(d) == d,
        0 <= d <= 15 ==> doubled(d) == d + d,
        d > 15 ==> doubled(d) == 30,
    decreases n,
{
    reveal_with_fuel(nth_pause, 6);
    if n > 5 {
        law_pauses_double((n - 1) as nat, d);
    }
}

} // verus!
