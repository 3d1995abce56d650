//! Exponential backoff. Durations are in nanoseconds.

use vstd::arithmetic::power2::{lemma2_to64, lemma_pow2_strictly_increases, lemma_pow2_unfold, pow2};
use vstd::prelude::*;

verus! {

/// The bounds of an exponential backoff, kept as one value so they cannot be transposed and so an
/// invalid pair is unrepresentable.
#[derive(Debug, Clone, Copy, PartialEq, Eq, Structural)]
pub struct Backoff {
    min: u128,
    max: u128,
}

/// The bounds given to [Backoff::new] are invalid.
#[derive(Debug, Clone, Copy, PartialEq, Eq, Structural)]
pub enum InvalidBackoff {
    /// The minimum is zero, which would make every step zero.
    ZeroMin,
    /// The bounds contradict each other.
    MaxBelowMin { min: u128, max: u128 },
}

impl Backoff {
    /// The `min` of [Backoff::default]: 250 milliseconds.
    pub const DEFAULT_MIN: u128 = 250_000_000;

    /// The `max` of [Backoff::default]: four seconds.
    pub const DEFAULT_MAX: u128 = 4_000_000_000;

    pub closed spec fn spec_min(self) -> u128 {
        self.min
    }

    pub closed spec fn spec_max(self) -> u128 {
        self.max
    }

    /// The minimum is not zero and the maximum not below it.
    #[verifier::type_invariant]
    pub closed spec fn inv(self) -> bool {
        0 < self.min <= self.max
    }

    /// The minimum doubled as often as the step says, or the maximum where that is less.
    pub open spec fn spec_duration(self, step: u32) -> nat {
        let grown = self.spec_min() * pow2(step as nat);
        if grown < self.spec_max() {
            grown as nat
        } else {
            self.spec_max() as nat
        }
    }

    /// The bounds of an exponential backoff starting at `min` and capped at `max`. Fails if `min` is
    /// zero, which would make the backoff no backoff at all, or if `max` is below `min`.
    pub fn new(min: u128, max: u128) -> (r: Result<Self, InvalidBackoff>)
        ensures
            r is Ok == (0 < min <= max),
            r matches Ok(backoff) ==> backoff.spec_min() == min && backoff.spec_max() == max,
            min == 0 ==> r == Err::<Self, InvalidBackoff>(InvalidBackoff::ZeroMin),
            min > 0 && max < min ==> r == Err::<Self, InvalidBackoff>(
                InvalidBackoff::MaxBelowMin { min, max },
            ),
    {
        if min == 0 {
            return Err(InvalidBackoff::ZeroMin);
        }
        if max < min {
            return Err(InvalidBackoff::MaxBelowMin { min, max });
        }
        Ok(Backoff { min, max })
    }

    /// The delay of the first step, doubled on every further one; never zero.
    pub fn min(self) -> (min: u128)
        ensures
            min == self.spec_min(),
            min > 0,
    {
        proof {
            use_type_invariant(&self);
        }
        self.min
    }

    /// The upper bound for the delay, never below [Backoff::min].
    pub fn max(self) -> (max: u128)
        ensures
            max == self.spec_max(),
            max >= self.spec_min(),
    {
        proof {
            use_type_invariant(&self);
        }
        self.max
    }

    /// The delay at a step: the minimum doubled as often, up to the maximum; never zero.
    pub fn duration(self, step: u32) -> (delay: u128)
        ensures
            delay == self.spec_duration(step),
            self.spec_min() <= delay <= self.spec_max(),
            delay > 0,
    {
        proof {
            use_type_invariant(&self);
            lemma2_to64();
        }
        let mut delay: u128 = self.min;
        let mut i: u32 = 0;
        while i < step
            invariant
                i <= step,
                0 < self.min <= delay <= self.max,
                delay == self.min * pow2(i as nat),
            decreases step - i,
        {
            proof {
                lemma_grown_doubles(self.min as int, i as nat);
                lemma_grown_never_shrinks(self.min as int, (i + 1) as nat, step as nat);
            }
            if delay >= self.max - delay {
                return self.max;
            }
            delay = delay * 2;
            i = i + 1;
        }
        delay
    }
}

proof fn lemma_grown_doubles(min: int, step: nat)
    ensures
        min * pow2(step + 1) == 2 * (min * pow2(step)),
{
    lemma_pow2_unfold(step + 1);
    let now = pow2(step) as int;
    assert(min * (2 * now) == 2 * (min * now)) by (nonlinear_arith);
}

proof fn lemma_grown_never_shrinks(min: int, earlier: nat, later: nat)
    requires
        min >= 0,
        earlier <= later,
    ensures
        min * pow2(earlier) <= min * pow2(later),
{
    if earlier < later {
        lemma_pow2_strictly_increases(earlier, later);
    }
    let a = pow2(earlier) as int;
    let b = pow2(later) as int;
    assert(min * a <= min * b) by (nonlinear_arith)
        requires
            a <= b,
            min >= 0,
    ;
}

impl Default for Backoff {
    fn default() -> (backoff: Self)
        ensures
            backoff.spec_min() == Backoff::DEFAULT_MIN,
            backoff.spec_max() == Backoff::DEFAULT_MAX,
    {
        Backoff { min: Backoff::DEFAULT_MIN, max: Backoff::DEFAULT_MAX }
    }
}

/// Every further step doubles the delay until the cap is reached, from which on it stays there.
pub proof fn the_delay_doubles_up_to_the_cap(backoff: Backoff, step: u32)
    requires
        0 < backoff.spec_min() <= backoff.spec_max(),
        step < u32::MAX,
    ensures
        backoff.spec_duration(0) == backoff.spec_min(),
        backoff.spec_duration((step + 1) as u32) == (if 2 * backoff.spec_duration(step)
            < backoff.spec_max() {
            2 * backoff.spec_duration(step)
        } else {
            backoff.spec_max() as nat
        }),
{
    lemma2_to64();
    lemma_grown_doubles(backoff.spec_min() as int, step as nat);
}

/// A later step never waits shorter.
pub proof fn delays_never_shrink(backoff: Backoff, earlier: u32, later: u32)
    requires
        earlier <= later,
    ensures
        backoff.spec_duration(earlier) <= backoff.spec_duration(later),
{
    lemma_grown_never_shrinks(backoff.spec_min() as int, earlier as nat, later as nat);
}

} // verus!
