//! What becomes of an actor which failed. Durations and instants are in nanoseconds.

use vstd::arithmetic::power2::pow2;
use vstd::prelude::*;

use crate::backoff::Backoff;
use crate::seqs::{age, elapsed};

verus! {

/// How a failed actor is restarted.
#[derive(Debug, Clone, Copy, PartialEq, Eq, Structural)]
pub struct RestartPolicy {
    /// How many consecutive restarts there are at most.
    pub max_restarts: u32,
    /// The delays before them.
    pub backoff: Backoff,
    /// How long an actor must have run for the count to start over.
    pub reset_after: u128,
}

/// Whether a failed actor is restarted.
#[derive(Debug, Clone, Copy, PartialEq, Eq, Structural)]
pub enum SupervisionStrategy {
    Stop,
    Restart(RestartPolicy),
}

/// The decision on one failure.
#[derive(Debug, Clone, Copy, PartialEq, Eq, Structural)]
pub enum Restart {
    After(u128),
    LimitExceeded,
    NotConfigured,
}

impl RestartPolicy {
    /// The consecutive restarts so far, which start over for an actor which ran long enough. One
    /// which never came up has not run at all.
    pub open spec fn counted(self, up_since: Option<u128>, restarts: u32, at: u128) -> u32 {
        if up_since matches Some(since) && age(at, since) >= self.reset_after {
            0
        } else {
            restarts
        }
    }
}

impl SupervisionStrategy {
    pub open spec fn decision(self, up_since: Option<u128>, restarts: u32, at: u128) -> (Restart, u32) {
        match self {
            SupervisionStrategy::Stop => (Restart::NotConfigured, restarts),
            SupervisionStrategy::Restart(policy) => {
                let counted = policy.counted(up_since, restarts, at);
                if counted >= policy.max_restarts {
                    (Restart::LimitExceeded, counted)
                } else {
                    (
                        Restart::After(policy.backoff.spec_duration(counted) as u128),
                        (counted + 1) as u32,
                    )
                }
            },
        }
    }
}

/// Decides on a failure and counts the restart it decides on.
pub fn next_restart(
    strategy: SupervisionStrategy,
    up_since: Option<u128>,
    restarts: &mut u32,
    at: u128,
) -> (restart: Restart)
    ensures
        (restart, *final(restarts)) == strategy.decision(up_since, *old(restarts), at),
{
    match strategy {
        SupervisionStrategy::Stop => Restart::NotConfigured,
        SupervisionStrategy::Restart(policy) => {
            if let Some(since) = up_since {
                if elapsed(at, since) >= policy.reset_after {
                    *restarts = 0;
                }
            }
            if *restarts >= policy.max_restarts {
                return Restart::LimitExceeded;
            }
            let delay: u128 = policy.backoff.duration(*restarts);
            *restarts = *restarts + 1;
            Restart::After(delay)
        },
    }
}

/// An actor which keeps failing without ever running long enough is restarted at most as often as
/// its policy says: a restart is decided on only while the count is below the limit, and counted.
pub proof fn restarts_are_limited(policy: RestartPolicy, up_since: Option<u128>, restarts: u32, at: u128)
    requires
        policy.counted(up_since, restarts, at) == restarts,
    ensures
        ({
            let (restart, counted) = SupervisionStrategy::Restart(policy).decision(
                up_since,
                restarts,
                at,
            );
            &&& restart is After == (restarts < policy.max_restarts)
            &&& restart is After ==> counted == restarts + 1 && counted <= policy.max_restarts
            &&& !(restart is After) ==> restart is LimitExceeded && counted == restarts
        }),
{
}

/// An actor which ran long enough before every failure is always restarted, after the least delay.
pub proof fn a_recovered_actor_starts_over(
    policy: RestartPolicy,
    since: u128,
    restarts: u32,
    at: u128,
)
    requires
        policy.max_restarts > 0,
        age(at, since) >= policy.reset_after,
    ensures
        SupervisionStrategy::Restart(policy).decision(Some(since), restarts, at) == (
            Restart::After(policy.backoff.spec_duration(0) as u128),
            1u32,
        ),
{
}

/// The delay of a restart depends on how many came before it in a row and on nothing else: it is the
/// minimum doubled as often, capped at the maximum, whether the actor came up in between or not. A
/// count which has reached the limit ends the actor, and a run of the asked length starts it over.
pub proof fn restarts_back_off(
    policy: RestartPolicy,
    up_since: Option<u128>,
    restarts: u32,
    at: u128,
)
    ensures
        ({
            let ran_long = up_since matches Some(since) && (at - since >= policy.reset_after
                || policy.reset_after == 0);
            let before: nat = if ran_long {
                0
            } else {
                restarts as nat
            };
            let grown = policy.backoff.spec_min() * pow2(before);
            let max = policy.backoff.spec_max() as int;
            let (restart, after) = SupervisionStrategy::Restart(policy).decision(
                up_since,
                restarts,
                at,
            );
            if before < policy.max_restarts {
                &&& restart matches Restart::After(delay) && delay == if grown < max {
                    grown
                } else {
                    max
                }
                &&& after == before + 1
            } else {
                restart is LimitExceeded && after == before
            }
        }),
        SupervisionStrategy::Stop.decision(up_since, restarts, at) == (
            Restart::NotConfigured,
            restarts,
        ),
{
    let counted = policy.counted(up_since, restarts, at);
    let grown = policy.backoff.spec_min() * pow2(counted as nat);
    assert(grown >= 0) by (nonlinear_arith)
        requires
            grown == policy.backoff.spec_min() * pow2(counted as nat),
            policy.backoff.spec_min() >= 0,
            pow2(counted as nat) >= 0,
    ;
}

/// Two failures in a row of an actor which did not run for long wait twice as long the second time,
/// up to the cap, however the actor fared in between.
pub proof fn a_second_restart_waits_twice_as_long(
    policy: RestartPolicy,
    first_up: Option<u128>,
    second_up: Option<u128>,
    restarts: u32,
    first: u128,
    second: u128,
)
    requires
        0 < policy.backoff.spec_min() <= policy.backoff.spec_max(),
        first_up matches Some(since) ==> first - since < policy.reset_after,
        second_up matches Some(since) ==> second - since < policy.reset_after,
        policy.reset_after > 0,
        restarts + 1 < policy.max_restarts,
    ensures
        ({
            let strategy = SupervisionStrategy::Restart(policy);
            let (one, counted) = strategy.decision(first_up, restarts, first);
            let (two, _) = strategy.decision(second_up, counted, second);
            one matches Restart::After(a) && (two matches Restart::After(b) && b == if 2 * a
                < policy.backoff.spec_max() {
                2 * a
            } else {
                policy.backoff.spec_max() as int
            })
        }),
{
    restarts_back_off(policy, first_up, restarts, first);
    restarts_back_off(policy, second_up, (restarts + 1) as u32, second);
    crate::backoff::the_delay_doubles_up_to_the_cap(policy.backoff, restarts);
}

/// What [next_restart] decides: it counts the restarts in a row, which a run of the asked length
/// starts over, and waits the minimum doubled as often as the count says, up to the maximum, however
/// the actor fared. At the limit, and without a policy, it decides on none.
pub proof fn a_failed_actor_is_backed_off(
    strategy: SupervisionStrategy,
    up_since: Option<u128>,
    restarts: &mut u32,
    at: u128,
    restart: Restart,
)
    requires
        call_ensures(next_restart, (strategy, up_since, restarts, at), restart),
    ensures
        strategy is Stop ==> restart is NotConfigured && *final(restarts) == *old(restarts),
        strategy matches SupervisionStrategy::Restart(policy) ==> {
            let ran_long = up_since matches Some(since) && (at - since >= policy.reset_after
                || policy.reset_after == 0);
            let before: nat = if ran_long {
                0
            } else {
                *old(restarts) as nat
            };
            let grown = policy.backoff.spec_min() * pow2(before);
            let max = policy.backoff.spec_max() as int;
            if before < policy.max_restarts {
                &&& restart matches Restart::After(delay) && delay == if grown < max {
                    grown
                } else {
                    max
                }
                &&& *final(restarts) == before + 1
            } else {
                restart is LimitExceeded && *final(restarts) == before
            }
        },
{
    if let SupervisionStrategy::Restart(policy) = strategy {
        restarts_back_off(policy, up_since, *old(restarts), at);
    }
}

} // verus!
