//! Where the endpoint stands: in no cluster yet, a member, or downed for good. Every transition runs
//! here, so a formation cannot slip between a join's admission and the record of it.

use vstd::prelude::*;

use crate::addr::SocketAddr;
use crate::cluster::addrs::AddrSet;
use crate::cluster::connect::ConnectError;
use crate::cluster::frame::RefusalReason;

verus! {

/// Where the endpoint stands.
#[derive(Debug, Clone, Copy, PartialEq, Eq, Structural)]
pub enum Lifecycle {
    /// No cluster yet.
    Unformed,
    /// A member of a cluster.
    Formed,
    /// Downed for good; only a restarted process can be a member again.
    Downed,
}

impl Default for Lifecycle {
    fn default() -> (lifecycle: Self)
        ensures
            lifecycle == Lifecycle::Unformed,
    {
        Lifecycle::Unformed
    }
}

impl Lifecycle {
    pub open spec fn spec_code(self) -> u8 {
        match self {
            Lifecycle::Unformed => 0,
            Lifecycle::Formed => 1,
            Lifecycle::Downed => 2,
        }
    }

    /// The lifecycle as a number.
    pub fn code(self) -> (code: u8)
        ensures
            code == self.spec_code(),
    {
        match self {
            Lifecycle::Unformed => 0,
            Lifecycle::Formed => 1,
            Lifecycle::Downed => 2,
        }
    }

    /// The lifecycle of a number; anything unknown is the end.
    pub fn from_code(code: u8) -> (lifecycle: Self)
        ensures
            code <= 2 ==> lifecycle.spec_code() == code,
            code > 2 ==> lifecycle == Lifecycle::Downed,
    {
        match code {
            0 => Lifecycle::Unformed,
            1 => Lifecycle::Formed,
            _ => Lifecycle::Downed,
        }
    }
}

/// This node cannot form a cluster.
#[derive(Debug, Clone, Copy, PartialEq, Eq, Structural)]
pub enum FormError {
    /// The remoting endpoint has not been started.
    EndpointNotStarted,
    /// This node is already a member of a cluster.
    AlreadyFormed,
    /// This node's incarnation has been downed by the cluster.
    Downed,
    /// A join attempt is in flight, which may be making this node a member of another cluster;
    /// worth retrying once it has resolved.
    JoinInFlight,
    /// A cluster at this address answered a join attempt and may already count this node; worth
    /// retrying.
    ClusterPinned(SocketAddr),
}

/// How a join attempt ended.
#[derive(Debug)]
pub struct Finished {
    pub result: Result<(), ConnectError>,
    /// The attempt is what downed this node.
    pub newly_downed: bool,
}

/// The lifecycle, whether a join attempt is in flight, and the cluster which may already count this
/// node.
#[derive(Debug, Clone, Copy, PartialEq, Eq, Structural)]
pub struct Coordinator {
    pub lifecycle: Lifecycle,
    pub join_in_flight: bool,
    pub pinned: Option<SocketAddr>,
}

impl Default for Coordinator {
    fn default() -> (coordinator: Self)
        ensures
            coordinator == (Coordinator {
                lifecycle: Lifecycle::Unformed,
                join_in_flight: false,
                pinned: None,
            }),
    {
        Coordinator { lifecycle: Lifecycle::Unformed, join_in_flight: false, pinned: None }
    }
}

impl Coordinator {
    pub open spec fn downed(self) -> Coordinator {
        if self.lifecycle == Lifecycle::Downed {
            self
        } else {
            Coordinator { lifecycle: Lifecycle::Downed, pinned: None, ..self }
        }
    }

    pub open spec fn can_form(self) -> Result<(), FormError> {
        if self.lifecycle == Lifecycle::Downed {
            Err(FormError::Downed)
        } else if self.join_in_flight {
            Err(FormError::JoinInFlight)
        } else if let Some(addr) = self.pinned {
            Err(FormError::ClusterPinned(addr))
        } else if self.lifecycle == Lifecycle::Formed {
            Err(FormError::AlreadyFormed)
        } else {
            Ok(())
        }
    }

    /// The pin is kept, unless the attempt admitted this node, ended it, or was answered by the
    /// pinned address itself that it is no cluster.
    pub open spec fn finished(self, addr: SocketAddr, result: Result<(), ConnectError>) -> (
        Coordinator,
        Result<(), ConnectError>,
        bool,
    ) {
        let ended = Coordinator { join_in_flight: false, ..self };
        if self.lifecycle == Lifecycle::Downed {
            (
                Coordinator { pinned: None, ..ended },
                Err(ConnectError::SelfDowned),
                false,
            )
        } else {
            match result {
                Ok(_) => (
                    Coordinator { lifecycle: Lifecycle::Formed, pinned: None, ..ended },
                    Ok(()),
                    false,
                ),
                Err(ConnectError::Refused(RefusalReason::Down)) => (ended.downed(), result, true),
                Err(ConnectError::Refused(RefusalReason::NoCluster)) => (
                    Coordinator {
                        pinned: if self.pinned == Some(addr) {
                            None
                        } else {
                            self.pinned
                        },
                        ..ended
                    },
                    result,
                    false,
                ),
                Err(_) => (ended, result, false),
            }
        }
    }

    /// Enters a join attempt, which no downed node makes.
    pub fn enter_join(&mut self) -> (entered: bool)
        ensures
            entered == (old(self).lifecycle != Lifecycle::Downed),
            *final(self) == (if entered {
                Coordinator { join_in_flight: true, ..*old(self) }
            } else {
                *old(self)
            }),
    {
        if self.lifecycle == Lifecycle::Downed {
            return false;
        }
        self.join_in_flight = true;
        true
    }

    /// Records that a cluster answered. A down landing in the middle of an attempt leaves nothing to
    /// pin: the evidence would outlive the node.
    pub fn pin(&mut self, addr: SocketAddr)
        ensures
            *final(self) == (if old(self).lifecycle == Lifecycle::Downed {
                *old(self)
            } else {
                Coordinator { pinned: Some(addr), ..*old(self) }
            }),
    {
        if self.lifecycle != Lifecycle::Downed {
            self.pinned = Some(addr);
        }
    }

    /// Commits a join attempt. Downed dominates every outcome, since a down may land anywhere inside
    /// the attempt.
    pub fn finish_join(&mut self, addr: SocketAddr, result: Result<(), ConnectError>) -> (finished:
        Finished)
        ensures
            *final(self) == old(self).finished(addr, result).0,
            finished.result == old(self).finished(addr, result).1,
            finished.newly_downed == old(self).finished(addr, result).2,
    {
        self.join_in_flight = false;
        if self.lifecycle == Lifecycle::Downed {
            self.pinned = None;
            return Finished { result: Err(ConnectError::SelfDowned), newly_downed: false };
        }
        let mut newly_downed = false;
        let result = match result {
            Ok(_) => {
                self.pinned = None;
                self.lifecycle = Lifecycle::Formed;
                Ok(())
            },
            Err(ConnectError::Refused(RefusalReason::Down)) => {
                newly_downed = self.down();
                Err(ConnectError::Refused(RefusalReason::Down))
            },
            Err(ConnectError::Refused(RefusalReason::NoCluster)) => {
                if let Some(pinned) = self.pinned {
                    if pinned == addr {
                        self.pinned = None;
                    }
                }
                Err(ConnectError::Refused(RefusalReason::NoCluster))
            },
            Err(error) => Err(error),
        };
        Finished { result, newly_downed }
    }

    pub open spec fn is_stale(self, universe: Set<SocketAddr>) -> bool {
        !self.join_in_flight && (self.pinned matches Some(pinned) && !universe.contains(pinned))
    }

    /// Releases the pin if discovery no longer resolves it, unless a running attempt may be
    /// gathering fresh evidence.
    pub fn release_pin_if_gone(&mut self, universe: &AddrSet) -> (released: Option<SocketAddr>)
        ensures
            released == (if old(self).is_stale(universe@) {
                old(self).pinned
            } else {
                None
            }),
            *final(self) == (if old(self).is_stale(universe@) {
                Coordinator { pinned: None, ..*old(self) }
            } else {
                *old(self)
            }),
    {
        if self.join_in_flight {
            return None;
        }
        match self.pinned {
            Some(pinned) => {
                if universe.contains(pinned) {
                    None
                } else {
                    self.pinned = None;
                    Some(pinned)
                }
            },
            None => None,
        }
    }

    /// Forms a cluster of this node alone, unless it is a member, downed, or may be becoming one.
    pub fn form(&mut self) -> (r: Result<Lifecycle, FormError>)
        ensures
            match old(self).can_form() {
                Ok(_) => {
                    &&& r == Ok::<Lifecycle, FormError>(Lifecycle::Formed)
                    &&& *final(self) == (Coordinator {
                        lifecycle: Lifecycle::Formed,
                        ..*old(self)
                    })
                },
                Err(e) => r == Err::<Lifecycle, FormError>(e) && *final(self) == *old(self),
            },
    {
        if self.lifecycle == Lifecycle::Downed {
            return Err(FormError::Downed);
        }
        if self.join_in_flight {
            return Err(FormError::JoinInFlight);
        }
        if let Some(addr) = self.pinned {
            return Err(FormError::ClusterPinned(addr));
        }
        match self.lifecycle {
            Lifecycle::Unformed => {
                self.lifecycle = Lifecycle::Formed;
                Ok(self.lifecycle)
            },
            _ => Err(FormError::AlreadyFormed),
        }
    }

    /// Downs this node; whether this call did.
    pub fn down(&mut self) -> (newly: bool)
        ensures
            newly == (old(self).lifecycle != Lifecycle::Downed),
            *final(self) == old(self).downed(),
    {
        if self.lifecycle == Lifecycle::Downed {
            return false;
        }
        self.lifecycle = Lifecycle::Downed;
        self.pinned = None;
        true
    }
}

/// A downed node stays downed, whatever it attempts.
pub proof fn downed_is_final(
    coordinator: Coordinator,
    addr: SocketAddr,
    result: Result<(), ConnectError>,
)
    requires
        coordinator.lifecycle == Lifecycle::Downed,
    ensures
        coordinator.downed() == coordinator,
        coordinator.can_form() == Err::<(), FormError>(FormError::Downed),
        coordinator.finished(addr, result).0.lifecycle == Lifecycle::Downed,
        coordinator.finished(addr, result).1 == Err::<(), ConnectError>(ConnectError::SelfDowned),
{
}

/// A member stays a member until it is downed.
pub proof fn a_member_does_not_form_again(
    coordinator: Coordinator,
    addr: SocketAddr,
    result: Result<(), ConnectError>,
)
    requires
        coordinator.lifecycle == Lifecycle::Formed,
    ensures
        coordinator.can_form() is Err,
        coordinator.finished(addr, result).0.lifecycle != Lifecycle::Unformed,
{
}

/// A cluster which answered a join attempt keeps this node from forming another one until it says it
/// is none, admits this node, or is gone from discovery.
pub proof fn a_pin_blocks_forming(
    coordinator: Coordinator,
    pinned: SocketAddr,
    addr: SocketAddr,
    result: Result<(), ConnectError>,
)
    requires
        coordinator.pinned == Some(pinned),
        coordinator.lifecycle == Lifecycle::Unformed,
        result is Err,
        result != Err::<(), ConnectError>(ConnectError::Refused(RefusalReason::NoCluster)) || addr
            != pinned,
    ensures
        coordinator.finished(addr, result).0.can_form() is Err,
        coordinator.can_form() is Err,
{
}

/// A node forms exactly when it is in no cluster, no join is under way and no cluster is pinned; the
/// refusal names what stands in the way.
pub proof fn a_free_node_forms(coordinator: Coordinator)
    ensures
        coordinator.can_form() is Ok <==> coordinator.lifecycle == Lifecycle::Unformed
            && !coordinator.join_in_flight && coordinator.pinned is None,
        coordinator.can_form() == Err::<(), FormError>(FormError::Downed) <==> coordinator.lifecycle
            == Lifecycle::Downed,
        coordinator.can_form() == Err::<(), FormError>(FormError::JoinInFlight) <==>
            coordinator.lifecycle != Lifecycle::Downed && coordinator.join_in_flight,
        coordinator.lifecycle != Lifecycle::Downed && !coordinator.join_in_flight
            && coordinator.pinned is Some ==> coordinator.can_form() == Err::<(), FormError>(
            FormError::ClusterPinned(coordinator.pinned->0),
        ),
        coordinator.lifecycle == Lifecycle::Formed && !coordinator.join_in_flight
            && coordinator.pinned is None ==> coordinator.can_form() == Err::<(), FormError>(
            FormError::AlreadyFormed,
        ),
{
}

/// A join attempt ends the flight. A committed one makes a member and lifts the pin; a refusal of
/// this incarnation downs the node; an address which is no cluster loses its pin, and any other
/// failure changes nothing else. A node downed meanwhile stays downed.
pub proof fn a_join_attempt_is_settled(
    coordinator: Coordinator,
    addr: SocketAddr,
    result: Result<(), ConnectError>,
)
    ensures
        ({
            let (after, answer, newly_downed) = coordinator.finished(addr, result);
            let down = Err::<(), ConnectError>(ConnectError::Refused(RefusalReason::Down));
            let none = Err::<(), ConnectError>(ConnectError::Refused(RefusalReason::NoCluster));
            &&& !after.join_in_flight
            &&& after.lifecycle == (if coordinator.lifecycle == Lifecycle::Downed || result == down {
                Lifecycle::Downed
            } else if result is Ok {
                Lifecycle::Formed
            } else {
                coordinator.lifecycle
            })
            &&& after.pinned is None <==> coordinator.pinned is None || after.lifecycle
                == Lifecycle::Downed || result is Ok || (result == none && coordinator.pinned
                == Some(addr))
            &&& after.pinned is Some ==> after.pinned == coordinator.pinned
            &&& newly_downed <==> coordinator.lifecycle != Lifecycle::Downed && result == down
            &&& coordinator.lifecycle != Lifecycle::Downed ==> (answer is Ok <==> result is Ok) && (
            result is Err ==> answer == result)
        }),
{
}

/// A pin goes stale once discovery no longer lists its address, unless a join is under way.
pub proof fn a_lost_pin_is_stale(coordinator: Coordinator, universe: Set<SocketAddr>)
    ensures
        coordinator.is_stale(universe) <==> !coordinator.join_in_flight && exists|addr: SocketAddr|
            coordinator.pinned == Some(addr) && !#[trigger] universe.contains(addr),
{
}

} // verus!
