//! The part of an accrual failure detector which needs no floating point: its validated tuning, the
//! sliding window of heartbeat intervals it learns from, and the verdicts which stand without
//! weighing them. Durations and instants are in nanoseconds.

use vstd::prelude::*;

use crate::cluster::config::{given_or, or_default};
use crate::seqs::{age, elapsed};

verus! {

/// The tuning of an accrual detector, validated on construction so an invalid configuration is
/// unrepresentable. The threshold is the bit pattern of a double precision number.
#[derive(Debug, Clone, Copy, PartialEq, Eq, Structural)]
pub struct PhiAccrual {
    threshold: u64,
    max_sample_size: usize,
    min_std_deviation: u128,
    acceptable_pause: u128,
    warmup_deadline: u128,
}

/// The tuning given to [PhiAccrual] is invalid.
#[derive(Debug, Clone, Copy, PartialEq, Eq, Structural)]
pub enum InvalidPhiAccrual {
    /// The threshold is not finite and positive.
    Threshold(u64),
    /// The sliding window is below [PhiAccrual::MIN_MAX_SAMPLE_SIZE].
    MaxSampleSize(usize),
    /// The minimum standard deviation is zero.
    MinStdDeviation,
}

/// What a [PhiAccrual] holds.
pub struct TuningModel {
    pub threshold: u64,
    pub max_sample_size: nat,
    pub min_std_deviation: nat,
    pub acceptable_pause: nat,
    pub warmup_deadline: nat,
}

/// The number is finite and positive: its sign bit is clear, its exponent not all ones and not every
/// bit is zero.
pub open spec fn is_finite_and_positive(bits: u64) -> bool {
    0 < bits < PhiAccrual::INFINITY
}

impl View for PhiAccrual {
    type V = TuningModel;

    closed spec fn view(&self) -> TuningModel {
        TuningModel {
            threshold: self.threshold,
            max_sample_size: self.max_sample_size as nat,
            min_std_deviation: self.min_std_deviation as nat,
            acceptable_pause: self.acceptable_pause as nat,
            warmup_deadline: self.warmup_deadline as nat,
        }
    }
}

impl PhiAccrual {
    /// The bits of positive infinity.
    pub const INFINITY: u64 = 0x7FF0_0000_0000_0000;

    /// The `threshold` of [PhiAccrual::default]: the bits of eight.
    pub const DEFAULT_THRESHOLD: u64 = 0x4020_0000_0000_0000;

    /// The `max_sample_size` of [PhiAccrual::default].
    pub const DEFAULT_MAX_SAMPLE_SIZE: usize = 200;

    /// The `min_std_deviation` of [PhiAccrual::default]: 100 milliseconds.
    pub const DEFAULT_MIN_STD_DEVIATION: u128 = 100_000_000;

    /// The `acceptable_pause` of [PhiAccrual::default]: three seconds.
    pub const DEFAULT_ACCEPTABLE_PAUSE: u128 = 3_000_000_000;

    /// The `warmup_deadline` of [PhiAccrual::default]: five seconds.
    pub const DEFAULT_WARMUP_DEADLINE: u128 = 5_000_000_000;

    /// The smallest window a variance is defined for; a smaller one would leave the detector at its
    /// warmup deadline forever.
    pub const MIN_MAX_SAMPLE_SIZE: usize = 2;

    #[verifier::type_invariant]
    closed spec fn inv(self) -> bool {
        &&& is_finite_and_positive(self.threshold)
        &&& self.max_sample_size >= Self::MIN_MAX_SAMPLE_SIZE
        &&& self.min_std_deviation > 0
    }

    /// Replaces the threshold suspicion must stay below. Fails unless it is finite and positive.
    pub fn with_threshold(self, threshold: u64) -> (r: Result<Self, InvalidPhiAccrual>)
        ensures
            match r {
                Ok(config) => is_finite_and_positive(threshold) && config@ == (TuningModel {
                    threshold,
                    ..self@
                }),
                Err(e) => !is_finite_and_positive(threshold) && e == InvalidPhiAccrual::Threshold(
                    threshold,
                ),
            },
    {
        proof {
            use_type_invariant(&self);
        }
        if threshold == 0 || threshold >= Self::INFINITY {
            return Err(InvalidPhiAccrual::Threshold(threshold));
        }
        Ok(PhiAccrual { threshold, ..self })
    }

    /// Replaces the number of intervals the sliding window holds. Fails below
    /// [PhiAccrual::MIN_MAX_SAMPLE_SIZE].
    pub fn with_max_sample_size(self, max_sample_size: usize) -> (r: Result<Self, InvalidPhiAccrual>)
        ensures
            match r {
                Ok(config) => max_sample_size >= Self::MIN_MAX_SAMPLE_SIZE && config@ == (
                TuningModel { max_sample_size: max_sample_size as nat, ..self@ }),
                Err(e) => max_sample_size < Self::MIN_MAX_SAMPLE_SIZE && e
                    == InvalidPhiAccrual::MaxSampleSize(max_sample_size),
            },
    {
        proof {
            use_type_invariant(&self);
        }
        if max_sample_size < Self::MIN_MAX_SAMPLE_SIZE {
            return Err(InvalidPhiAccrual::MaxSampleSize(max_sample_size));
        }
        Ok(PhiAccrual { max_sample_size, ..self })
    }

    /// Replaces the floor under the learned standard deviation. Fails on zero, which would divide by
    /// zero once every interval is the same.
    pub fn with_min_std_deviation(self, min_std_deviation: u128) -> (r: Result<
        Self,
        InvalidPhiAccrual,
    >)
        ensures
            match r {
                Ok(config) => min_std_deviation > 0 && config@ == (TuningModel {
                    min_std_deviation: min_std_deviation as nat,
                    ..self@
                }),
                Err(e) => min_std_deviation == 0 && e == InvalidPhiAccrual::MinStdDeviation,
            },
    {
        proof {
            use_type_invariant(&self);
        }
        if min_std_deviation == 0 {
            return Err(InvalidPhiAccrual::MinStdDeviation);
        }
        Ok(PhiAccrual { min_std_deviation, ..self })
    }

    /// Replaces the pause added to the learned mean before any suspicion accrues.
    pub fn with_acceptable_pause(self, acceptable_pause: u128) -> (config: Self)
        ensures
            config@ == (TuningModel { acceptable_pause: acceptable_pause as nat, ..self@ }),
    {
        proof {
            use_type_invariant(&self);
        }
        PhiAccrual { acceptable_pause, ..self }
    }

    /// Replaces the deadline used while fewer than two intervals have been observed.
    pub fn with_warmup_deadline(self, warmup_deadline: u128) -> (config: Self)
        ensures
            config@ == (TuningModel { warmup_deadline: warmup_deadline as nat, ..self@ }),
    {
        proof {
            use_type_invariant(&self);
        }
        PhiAccrual { warmup_deadline, ..self }
    }

    /// The threshold suspicion must stay below, finite and positive.
    pub fn threshold(self) -> (threshold: u64)
        ensures
            threshold == self@.threshold,
            is_finite_and_positive(threshold),
    {
        proof {
            use_type_invariant(&self);
        }
        self.threshold
    }

    /// The number of intervals the sliding window holds, at least two.
    pub fn max_sample_size(self) -> (max_sample_size: usize)
        ensures
            max_sample_size == self@.max_sample_size,
            max_sample_size >= Self::MIN_MAX_SAMPLE_SIZE,
    {
        proof {
            use_type_invariant(&self);
        }
        self.max_sample_size
    }

    /// The floor under the learned standard deviation, never zero.
    pub fn min_std_deviation(self) -> (min_std_deviation: u128)
        ensures
            min_std_deviation == self@.min_std_deviation,
            min_std_deviation > 0,
    {
        proof {
            use_type_invariant(&self);
        }
        self.min_std_deviation
    }

    /// The pause added to the learned mean before any suspicion accrues.
    pub fn acceptable_pause(self) -> (acceptable_pause: u128)
        ensures
            acceptable_pause == self@.acceptable_pause,
    {
        self.acceptable_pause
    }

    /// The deadline used while fewer than two intervals have been observed.
    pub fn warmup_deadline(self) -> (warmup_deadline: u128)
        ensures
            warmup_deadline == self@.warmup_deadline,
    {
        self.warmup_deadline
    }
}

impl Default for PhiAccrual {
    fn default() -> (config: Self)
        ensures
            config@ == (TuningModel {
                threshold: PhiAccrual::DEFAULT_THRESHOLD,
                max_sample_size: PhiAccrual::DEFAULT_MAX_SAMPLE_SIZE as nat,
                min_std_deviation: PhiAccrual::DEFAULT_MIN_STD_DEVIATION as nat,
                acceptable_pause: PhiAccrual::DEFAULT_ACCEPTABLE_PAUSE as nat,
                warmup_deadline: PhiAccrual::DEFAULT_WARMUP_DEADLINE as nat,
            }),
    {
        PhiAccrual {
            threshold: PhiAccrual::DEFAULT_THRESHOLD,
            max_sample_size: PhiAccrual::DEFAULT_MAX_SAMPLE_SIZE,
            min_std_deviation: PhiAccrual::DEFAULT_MIN_STD_DEVIATION,
            acceptable_pause: PhiAccrual::DEFAULT_ACCEPTABLE_PAUSE,
            warmup_deadline: PhiAccrual::DEFAULT_WARMUP_DEADLINE,
        }
    }
}

/// A tuning as a configuration file gives it: each part may be left out, and none of them is checked.
#[derive(Debug, Clone, Copy, PartialEq, Eq, Structural)]
pub struct UncheckedPhiAccrual {
    pub threshold: Option<u64>,
    pub max_sample_size: Option<usize>,
    pub min_std_deviation: Option<u128>,
    pub acceptable_pause: Option<u128>,
    pub warmup_deadline: Option<u128>,
}

impl UncheckedPhiAccrual {
    /// The given parts, and the defaults where none was given.
    pub open spec fn completed(self) -> TuningModel {
        TuningModel {
            threshold: given_or(self.threshold, PhiAccrual::DEFAULT_THRESHOLD),
            max_sample_size: given_or(self.max_sample_size, PhiAccrual::DEFAULT_MAX_SAMPLE_SIZE) as nat,
            min_std_deviation: given_or(
                self.min_std_deviation,
                PhiAccrual::DEFAULT_MIN_STD_DEVIATION,
            ) as nat,
            acceptable_pause: given_or(
                self.acceptable_pause,
                PhiAccrual::DEFAULT_ACCEPTABLE_PAUSE,
            ) as nat,
            warmup_deadline: given_or(
                self.warmup_deadline,
                PhiAccrual::DEFAULT_WARMUP_DEADLINE,
            ) as nat,
        }
    }

    /// The tuning, completed by the defaults and found valid; else what is wrong with it first, in the
    /// order of its parts.
    pub fn check(self) -> (r: Result<PhiAccrual, InvalidPhiAccrual>)
        ensures
            ({
                let tuning = self.completed();
                let threshold = is_finite_and_positive(tuning.threshold);
                let window = tuning.max_sample_size >= PhiAccrual::MIN_MAX_SAMPLE_SIZE;
                match r {
                    Ok(config) => threshold && window && tuning.min_std_deviation > 0 && config@
                        == tuning,
                    Err(InvalidPhiAccrual::Threshold(bits)) => !threshold && bits
                        == tuning.threshold,
                    Err(InvalidPhiAccrual::MaxSampleSize(size)) => threshold && !window && size
                        == tuning.max_sample_size,
                    Err(InvalidPhiAccrual::MinStdDeviation) => threshold && window
                        && tuning.min_std_deviation == 0,
                }
            }),
    {
        let defaults = PhiAccrual::default();
        let threshold: u64 = or_default(self.threshold, defaults.threshold());
        let max_sample_size: usize = or_default(self.max_sample_size, defaults.max_sample_size());
        let min_std_deviation: u128 = or_default(
            self.min_std_deviation,
            defaults.min_std_deviation(),
        );
        let acceptable_pause: u128 = or_default(self.acceptable_pause, defaults.acceptable_pause());
        let warmup_deadline: u128 = or_default(self.warmup_deadline, defaults.warmup_deadline());
        let config = defaults.with_threshold(threshold)?;
        let config = config.with_max_sample_size(max_sample_size)?;
        let config = config.with_min_std_deviation(min_std_deviation)?;
        Ok(config.with_acceptable_pause(acceptable_pause).with_warmup_deadline(warmup_deadline))
    }
}

/// What a [HeartbeatWindow] can say of a node on its own.
#[derive(Debug, Clone, Copy, PartialEq, Eq, Structural)]
pub enum Silence {
    /// The verdict stands without looking at the intervals.
    Decided(bool),
    /// The silence has to be weighed against the intervals of the window.
    Weigh { elapsed: u128 },
}

/// The sliding window of heartbeat intervals an accrual detector learns from: the newest intervals
/// up to a maximum, and a deadline for the time before there are two of them.
#[derive(Debug)]
pub struct HeartbeatWindow {
    pub config: PhiAccrual,
    pub intervals: Vec<u128>,
    pub last_heartbeat: Option<u128>,
}

/// The intervals and the last heartbeat after one more.
pub open spec fn recorded(
    window: (Seq<u128>, Option<u128>),
    max_sample_size: nat,
    at: u128,
) -> (Seq<u128>, Option<u128>) {
    let grown = match window.1 {
        Some(last) => window.0.push(age(at, last)),
        None => window.0,
    };
    (
        if grown.len() > max_sample_size {
            grown.skip(1)
        } else {
            grown
        },
        Some(at),
    )
}

impl HeartbeatWindow {
    pub open spec fn wf(&self) -> bool {
        self.intervals@.len() <= self.config@.max_sample_size
    }

    /// An empty window.
    pub fn new(config: PhiAccrual) -> (window: Self)
        ensures
            window.wf(),
            window.config == config,
            window.intervals@ == Seq::<u128>::empty(),
            window.last_heartbeat is None,
    {
        HeartbeatWindow { config, intervals: Vec::new(), last_heartbeat: None }
    }

    /// Adds the interval since the last heartbeat; the oldest interval beyond the maximum leaves
    /// the window and is handed back.
    pub fn record_heartbeat(&mut self, at: u128) -> (evicted: Option<u128>)
        requires
            old(self).wf(),
        ensures
            final(self).wf(),
            final(self).config == old(self).config,
            (final(self).intervals@, final(self).last_heartbeat) == recorded(
                (old(self).intervals@, old(self).last_heartbeat),
                old(self).config@.max_sample_size,
                at,
            ),
            evicted == if old(self).last_heartbeat is Some && old(self).intervals@.len()
                == old(self).config@.max_sample_size {
                Some(old(self).intervals@[0])
            } else {
                None::<u128>
            },
    {
        let mut evicted: Option<u128> = None;
        if let Some(last) = self.last_heartbeat {
            let interval: u128 = elapsed(at, last);
            let max_sample_size: usize = self.config.max_sample_size();
            let ghost grown = self.intervals@.push(interval);
            if self.intervals.len() == max_sample_size {
                let oldest: u128 = self.intervals.remove(0);
                evicted = Some(oldest);
                self.intervals.push(interval);
                assert(self.intervals@ =~= grown.skip(1));
            } else {
                self.intervals.push(interval);
            }
        }
        self.last_heartbeat = Some(at);
        evicted
    }

    /// What the window says of the silence up to the given instant.
    pub fn silence(&self, at: u128) -> (r: Silence)
        ensures
            r == (match self.last_heartbeat {
                None => Silence::Decided(true),
                Some(last) => if self.intervals@.len() < 2 {
                    Silence::Decided(age(at, last) <= self.config@.warmup_deadline)
                } else {
                    Silence::Weigh { elapsed: age(at, last) }
                },
            }),
    {
        match self.last_heartbeat {
            None => Silence::Decided(true),
            Some(last) => {
                let silent: u128 = elapsed(at, last);
                if self.intervals.len() < 2 {
                    Silence::Decided(silent <= self.config.warmup_deadline())
                } else {
                    Silence::Weigh { elapsed: silent }
                }
            },
        }
    }
}

/// The window after these heartbeats.
pub open spec fn recorded_all(beats: Seq<u128>, max_sample_size: nat) -> (Seq<u128>, Option<u128>)
    decreases beats.len(),
{
    if beats.len() == 0 {
        (Seq::empty(), None)
    } else {
        recorded(recorded_all(beats.drop_last(), max_sample_size), max_sample_size, beats.last())
    }
}

/// The intervals between heartbeats.
pub open spec fn intervals_of(beats: Seq<u128>) -> Seq<u128> {
    Seq::new(
        if beats.len() == 0 {
            0
        } else {
            (beats.len() - 1) as nat
        },
        |i: int| age(beats[i + 1], beats[i]),
    )
}

/// The last items, up to a maximum.
pub open spec fn newest(items: Seq<u128>, max: nat) -> Seq<u128> {
    if items.len() <= max {
        items
    } else {
        items.skip(items.len() - max)
    }
}

/// The window slides: it holds the newest intervals and nothing older, so an outlier ages out with
/// the intervals after it.
pub proof fn old_intervals_age_out(beats: Seq<u128>, max_sample_size: nat)
    requires
        max_sample_size > 0,
    ensures
        recorded_all(beats, max_sample_size).0 == newest(intervals_of(beats), max_sample_size),
        recorded_all(beats, max_sample_size).1 == if beats.len() == 0 {
            None::<u128>
        } else {
            Some(beats.last())
        },
    decreases beats.len(),
{
    if beats.len() > 0 {
        let rest = beats.drop_last();
        old_intervals_age_out(rest, max_sample_size);
        if rest.len() > 0 {
            assert(intervals_of(beats) =~= intervals_of(rest).push(age(beats.last(), rest.last())));
            assert(recorded_all(beats, max_sample_size).0 =~= newest(
                intervals_of(beats),
                max_sample_size,
            ));
        } else {
            assert(intervals_of(beats) =~= Seq::empty());
            assert(intervals_of(rest) =~= Seq::empty());
        }
    } else {
        assert(intervals_of(beats) =~= Seq::empty());
    }
}

/// A detector which never heard of its node has it available; one with fewer than two intervals goes
/// by the deadline for that time, and only a window of at least two is weighed, with how long the
/// node has been silent.
pub proof fn a_young_window_goes_by_the_deadline(
    window: &HeartbeatWindow,
    at: u128,
    silence: Silence,
)
    requires
        call_ensures(HeartbeatWindow::silence, (window, at), silence),
    ensures
        ({
            let last = window.last_heartbeat->0;
            let elapsed = if at >= last {
                at - last
            } else {
                0
            };
            &&& window.last_heartbeat is None ==> silence == Silence::Decided(true)
            &&& window.last_heartbeat is Some && window.intervals@.len() < 2 ==> (silence matches
                Silence::Decided(available) && (available <==> elapsed
                <= window.config@.warmup_deadline))
            &&& window.last_heartbeat is Some && window.intervals@.len() >= 2 ==> (silence matches
                Silence::Weigh { elapsed: weighed } && weighed == elapsed)
        }),
{
}

} // verus!
