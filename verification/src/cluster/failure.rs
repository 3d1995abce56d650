//! Deciding whether a member is still reachable, fed by heartbeats. An unreachable member is not
//! yet a dead one; that is the downing decision.

use vstd::prelude::*;

use crate::cluster::reachability::has_node;
use crate::ids::NodeId;
use crate::seqs::{age, elapsed};
use crate::table::Table;

verus! {

/// Decides whether a peer node is still available, fed by heartbeats: every frame received from
/// the node counts as one. One detector instance exists per member incarnation.
pub trait FailureDetector: Sized {
    /// The detector after a heartbeat.
    spec fn heard(self, at: u128) -> Self;

    /// The detector's verdict.
    spec fn available(self, at: u128) -> bool;

    /// Record a heartbeat observed at the given instant.
    fn record_heartbeat(&mut self, at: u128)
        ensures
            *final(self) == old(self).heard(at),
    ;

    /// Whether the node is to be considered available at the given instant. A node not heard from
    /// yet is available, so arming a detector never condemns the member it was armed for.
    fn is_available(&self, at: u128) -> (r: bool)
        ensures
            r == self.available(at),
    ;
}

/// The tuning of a [DeadlineFailureDetector], never zero.
#[derive(Debug, Clone, Copy, PartialEq, Eq, Structural)]
pub struct Deadline(u128);

/// The tuning given to [Deadline] is invalid.
#[derive(Debug, Clone, Copy, PartialEq, Eq, Structural)]
pub enum InvalidDeadline {
    /// The deadline is zero.
    Zero,
}

impl Deadline {
    pub closed spec fn spec_duration(self) -> u128 {
        self.0
    }

    /// A deadline of the given duration. Zero is refused: every instant after a heartbeat would
    /// exceed it.
    pub fn new(deadline: u128) -> (r: Result<Self, InvalidDeadline>)
        ensures
            r is Err == (deadline == 0),
            r matches Ok(d) ==> d.spec_duration() == deadline,
    {
        if deadline == 0 {
            return Err(InvalidDeadline::Zero);
        }
        Ok(Deadline(deadline))
    }

    /// The duration a heartbeat's age must stay within.
    pub fn duration(self) -> (duration: u128)
        ensures
            duration == self.spec_duration(),
    {
        self.0
    }
}

/// The deterministic [FailureDetector]: a node is available as long as the last heartbeat is no
/// older than the deadline.
#[derive(Debug, Clone, Copy, PartialEq, Eq, Structural)]
pub struct DeadlineFailureDetector {
    pub config: Deadline,
    pub last_heartbeat: Option<u128>,
}

impl DeadlineFailureDetector {
    /// A detector tuned by the given configuration.
    pub fn new(config: Deadline) -> (detector: Self)
        ensures
            detector == (DeadlineFailureDetector { config, last_heartbeat: None }),
    {
        DeadlineFailureDetector { config, last_heartbeat: None }
    }
}

/// Makes the detector of a member incarnation.
pub trait FailureDetectorFactory<D: FailureDetector> {
    /// The detector made: one which has heard nothing yet.
    spec fn made(&self) -> D;

    fn make(&self) -> (detector: D)
        ensures
            detector == self.made(),
    ;
}

impl FailureDetectorFactory<DeadlineFailureDetector> for Deadline {
    open spec fn made(&self) -> DeadlineFailureDetector {
        DeadlineFailureDetector { config: *self, last_heartbeat: None }
    }

    fn make(&self) -> (detector: DeadlineFailureDetector) {
        DeadlineFailureDetector::new(*self)
    }
}

impl FailureDetector for DeadlineFailureDetector {
    open spec fn heard(self, at: u128) -> Self {
        DeadlineFailureDetector { last_heartbeat: Some(at), ..self }
    }

    open spec fn available(self, at: u128) -> bool {
        self.last_heartbeat matches Some(last) ==> age(at, last) <= self.config.spec_duration()
    }

    fn record_heartbeat(&mut self, at: u128) {
        self.last_heartbeat = Some(at);
    }

    fn is_available(&self, at: u128) -> (r: bool) {
        match self.last_heartbeat {
            Some(last) => elapsed(at, last) <= self.config.duration(),
            None => true,
        }
    }
}

/// One tracked peer: its detector, how many readers hold it and how many deliveries from it are
/// under way.
#[derive(Debug)]
pub struct PeerLiveness<D> {
    pub detector: D,
    pub holders: u64,
    pub deliveries: u64,
}

/// A count one up or, for `false`, one down, if there is room for that.
pub open spec fn counted(count: u64, up: bool) -> Option<u64> {
    if up {
        if count < u64::MAX {
            Some((count + 1) as u64)
        } else {
            None
        }
    } else if count > 0 {
        Some((count - 1) as u64)
    } else {
        None
    }
}

fn step(count: u64, up: bool) -> (r: Option<u64>)
    ensures
        r == counted(count, up),
{
    if up {
        count.checked_add(1)
    } else {
        count.checked_sub(1)
    }
}

/// The detectors of the peers heard from, by incarnation.
#[derive(Debug)]
pub struct Liveness<D> {
    pub peers: Table<NodeId, PeerLiveness<D>>,
}

impl<D: FailureDetector> Liveness<D> {
    pub open spec fn wf(&self) -> bool {
        self.peers.wf()
    }

    pub open spec fn map(&self) -> Map<NodeId, PeerLiveness<D>> {
        self.peers.map()
    }

    pub fn new() -> (liveness: Self)
        ensures
            liveness.wf(),
            liveness.map() == Map::<NodeId, PeerLiveness<D>>::empty(),
    {
        Liveness { peers: Table::new() }
    }

    /// Tracks the peer with the given detector, whose deadline the tracking itself starts; a peer
    /// which is tracked already keeps the detector it has.
    pub fn track(&mut self, node: NodeId, detector: D, at: u128)
        requires
            old(self).wf(),
        ensures
            final(self).wf(),
            final(self).map() == if old(self).map().dom().contains(node) {
                old(self).map()
            } else {
                old(self).map().insert(
                    node,
                    PeerLiveness { detector: detector.heard(at), holders: 0, deliveries: 0 },
                )
            },
    {
        if !self.peers.contains_key(node) {
            let mut armed = detector;
            armed.record_heartbeat(at);
            self.peers.insert(node, PeerLiveness { detector: armed, holders: 0, deliveries: 0 });
        }
    }

    /// Records a frame received from the peer.
    pub fn record_heartbeat(&mut self, node: NodeId, at: u128)
        requires
            old(self).wf(),
        ensures
            final(self).wf(),
            final(self).map() == if old(self).map().dom().contains(node) {
                let peer = old(self).map()[node];
                old(self).map().insert(
                    node,
                    PeerLiveness { detector: peer.detector.heard(at), ..peer },
                )
            } else {
                old(self).map()
            },
    {
        match self.peers.remove(node) {
            Some(peer) => {
                let PeerLiveness { detector, holders, deliveries } = peer;
                let mut heard = detector;
                heard.record_heartbeat(at);
                self.peers.insert(node, PeerLiveness { detector: heard, holders, deliveries });
                proof {
                    let entry = PeerLiveness { detector: heard, holders, deliveries };
                    assert(old(self).map().remove(node).insert(node, entry) =~= old(
                        self,
                    ).map().insert(node, entry));
                }
            },
            None => {
                assert(old(self).map().remove(node) =~= old(self).map());
            },
        }
    }

    /// Whether the peer is available; one which is not tracked is.
    pub fn is_available(&self, node: NodeId, at: u128) -> (r: bool)
        requires
            self.wf(),
        ensures
            r == (self.map().dom().contains(node) ==> self.map()[node].detector.available(at)),
    {
        match self.peers.get(node) {
            Some(peer) => peer.detector.is_available(at),
            None => true,
        }
    }

    /// Takes or, for `false`, releases one reader's hold on the peer; `false` if there is no peer, no
    /// hold to release, or no room for another one.
    pub fn hold(&mut self, node: NodeId, take: bool) -> (held: bool)
        requires
            old(self).wf(),
        ensures
            final(self).wf(),
            ({
                let before = old(self).map();
                if before.dom().contains(node) {
                    match counted(before[node].holders, take) {
                        Some(holders) => {
                            &&& held
                            &&& final(self).map() == before.insert(
                                node,
                                PeerLiveness { holders, ..before[node] },
                            )
                        },
                        None => !held && final(self).map() == before,
                    }
                } else {
                    !held && final(self).map() == before
                }
            }),
    {
        match self.peers.remove(node) {
            Some(peer) => {
                let PeerLiveness { detector, holders, deliveries } = peer;
                let stepped = step(holders, take);
                let next: u64 = match stepped {
                    Some(next) => next,
                    None => holders,
                };
                self.peers.insert(node, PeerLiveness { detector, holders: next, deliveries });
                proof {
                    let entry = PeerLiveness { detector, holders: next, deliveries };
                    assert(old(self).map().remove(node).insert(node, entry) =~= old(
                        self,
                    ).map().insert(node, entry));
                    assert(stepped is None ==> old(self).map().insert(node, entry) =~= old(
                        self,
                    ).map());
                }
                stepped.is_some()
            },
            None => {
                assert(old(self).map().remove(node) =~= old(self).map());
                false
            },
        }
    }

    /// Begins or, for `false`, ends one delivery from the peer; `false` if there is no peer, no
    /// delivery to end, or no room for another one.
    pub fn deliver(&mut self, node: NodeId, begin: bool) -> (done: bool)
        requires
            old(self).wf(),
        ensures
            final(self).wf(),
            ({
                let before = old(self).map();
                if before.dom().contains(node) {
                    match counted(before[node].deliveries, begin) {
                        Some(deliveries) => {
                            &&& done
                            &&& final(self).map() == before.insert(
                                node,
                                PeerLiveness { deliveries, ..before[node] },
                            )
                        },
                        None => !done && final(self).map() == before,
                    }
                } else {
                    !done && final(self).map() == before
                }
            }),
    {
        match self.peers.remove(node) {
            Some(peer) => {
                let PeerLiveness { detector, holders, deliveries } = peer;
                let stepped = step(deliveries, begin);
                let next: u64 = match stepped {
                    Some(next) => next,
                    None => deliveries,
                };
                self.peers.insert(node, PeerLiveness { detector, holders, deliveries: next });
                proof {
                    let entry = PeerLiveness { detector, holders, deliveries: next };
                    assert(old(self).map().remove(node).insert(node, entry) =~= old(
                        self,
                    ).map().insert(node, entry));
                    assert(stepped is None ==> old(self).map().insert(node, entry) =~= old(
                        self,
                    ).map());
                }
                stepped.is_some()
            },
            None => {
                assert(old(self).map().remove(node) =~= old(self).map());
                false
            },
        }
    }

    pub open spec fn is_quiet(self, fence: NodeId) -> bool {
        forall|n: NodeId| #[trigger]
            self.map().dom().contains(n) && fence.fences(n) ==> self.map()[n].deliveries == 0
    }

    /// Whether no delivery from an incarnation the fence covers is under way.
    pub fn is_quiesced(&self, fence: NodeId) -> (r: bool)
        requires
            self.wf(),
        ensures
            r == self.is_quiet(fence),
    {
        let mut i: usize = 0;
        while i < self.peers.entries.len()
            invariant
                i <= self.peers@.len(),
                self.wf(),
                forall|j: int|
                    0 <= j < i && fence.fences((#[trigger] self.peers@[j]).0)
                        ==> self.peers@[j].1.deliveries == 0,
            decreases self.peers@.len() - i,
        {
            let entry = &self.peers.entries[i];
            if fence.covers(entry.0) && entry.1.deliveries > 0 {
                proof {
                    crate::table::lemma_entry_in_map(self.peers@, i as int);
                    let held = self.peers@[i as int].0;
                    assert(self.map().dom().contains(held));
                    assert(self.map()[held].deliveries > 0);
                }
                return false;
            }
            i = i + 1;
        }
        proof {
            assert forall|n: NodeId| #[trigger]
                self.map().dom().contains(n) && fence.fences(n) implies self.map()[n].deliveries
                == 0 by {
                let j = crate::table::lemma_map_in_entries(self.peers@, n);
                assert(self.peers@[j].0 == n);
            }
        }
        true
    }

    /// Forgets every incarnation the fence covers.
    pub fn untrack_fenced(&mut self, fence: NodeId)
        requires
            old(self).wf(),
        ensures
            final(self).wf(),
            final(self).map() == Map::new(
                |n: NodeId| old(self).map().dom().contains(n) && !fence.fences(n),
                |n: NodeId| old(self).map()[n],
            ),
    {
        let ghost p = |e: (NodeId, PeerLiveness<D>)| !fence.fences(e.0);
        let keep = |node: &NodeId, peer: &PeerLiveness<D>| -> (r: bool)
            ensures
                r == !fence.fences(*node),
            { !fence.covers(*node) };
        self.peers.retain(keep, Ghost(p));
        assert(self.map() =~= Map::new(
            |n: NodeId| old(self).map().dom().contains(n) && !fence.fences(n),
            |n: NodeId| old(self).map()[n],
        ));
    }

    /// Keeps the named peers and the ones a reader holds.
    pub fn retain_with(&mut self, kept: &[NodeId])
        requires
            old(self).wf(),
        ensures
            final(self).wf(),
            final(self).map() == Map::new(
                |n: NodeId|
                    old(self).map().dom().contains(n) && (kept@.contains(n) || old(self).map()[n].holders
                        > 0),
                |n: NodeId| old(self).map()[n],
            ),
    {
        let ghost p = |e: (NodeId, PeerLiveness<D>)| kept@.contains(e.0) || e.1.holders > 0;
        let keep = |node: &NodeId, peer: &PeerLiveness<D>| -> (r: bool)
            ensures
                r == (kept@.contains(*node) || peer.holders > 0),
            { has_node(kept, *node) || peer.holders > 0 };
        self.peers.retain(keep, Ghost(p));
        assert(self.map() =~= Map::new(
            |n: NodeId|
                old(self).map().dom().contains(n) && (kept@.contains(n) || old(self).map()[n].holders
                    > 0),
            |n: NodeId| old(self).map()[n],
        ));
    }
}

/// A heartbeat restarts the deadline: the node is available from it up to and including the
/// deadline, and no longer.
pub proof fn a_heartbeat_restarts_the_deadline(
    detector: DeadlineFailureDetector,
    heard_at: u128,
    at: u128,
)
    requires
        heard_at <= at,
    ensures
        detector.heard(heard_at).available(at) == (at - heard_at
            <= detector.config.spec_duration()),
{
}

/// A node not heard from yet is available, whenever it is asked for.
pub proof fn a_node_without_heartbeats_is_available(config: Deadline, at: u128)
    ensures
        (DeadlineFailureDetector { config, last_heartbeat: None }).available(at),
{
}

/// A count goes up or down by one, and stays where it cannot.
pub proof fn holders_are_counted(count: u64)
    ensures
        counted(count, true) == (if count == u64::MAX {
            None
        } else {
            Some((count + 1) as u64)
        }),
        counted(count, false) == (if count == 0 {
            None
        } else {
            Some((count - 1) as u64)
        }),
{
}

/// A peer which is not tracked is available, and a tracked one is what its detector says.
pub proof fn an_untracked_peer_is_available<D: FailureDetector>(
    liveness: &Liveness<D>,
    node: NodeId,
    at: u128,
    r: bool,
)
    requires
        call_ensures(Liveness::<D>::is_available, (liveness, node, at), r),
    ensures
        !liveness.map().dom().contains(node) ==> r,
        liveness.map().dom().contains(node) ==> r == liveness.map()[node].detector.available(at),
{
}

/// A peer has quiesced once no delivery of an incarnation its death covers is under way.
pub proof fn a_peer_quiesces_with_its_deliveries<D: FailureDetector>(
    liveness: &Liveness<D>,
    fence: NodeId,
    r: bool,
)
    requires
        call_ensures(Liveness::<D>::is_quiesced, (liveness, fence), r),
    ensures
        r <==> forall|n: NodeId| #[trigger]
            liveness.map().dom().contains(n) && n.addr == fence.addr && n.incarnation.0
                <= fence.incarnation.0 ==> liveness.map()[n].deliveries == 0,
{
}

} // verus!
