//! The periodic work: one membership round gossips, observes this node's links, pushes what is news
//! and carries out the downing decision; another one re-asserts the remote watches.

use vstd::prelude::*;

use crate::cluster::downing::{Downing, DowningModel};
use crate::cluster::endpoint::{member_nodes, Endpoint, EndpointModel};
use crate::cluster::failure::{FailureDetector, FailureDetectorFactory};
use crate::cluster::frame::{Frame, FrameModel};
use crate::cluster::membership::Member;
use crate::cluster::outbound::Towards;
use crate::cluster::watch::{watch_pairs, watched_peers};
use crate::ids::{ActorId, NodeId};

verus! {

/// What a downing provider decides on.
#[derive(Debug)]
pub struct Round {
    pub members: Vec<Member>,
    /// The members outside this node's component and since when each is.
    pub disconnected: Vec<(Member, u128)>,
}

pub open spec fn watch_frames(pairs: Seq<(ActorId, ActorId)>) -> Seq<FrameModel> {
    pairs.map_values(|w: (ActorId, ActorId)| FrameModel::Watch { target: w.0, watcher: w.1 })
}

/// The watches of the pairs, each in a frame of its own to ride its watcher's stream.
pub fn frames_of_watches(pairs: &Vec<(ActorId, ActorId)>) -> (frames: Vec<Frame>)
    ensures
        frames.deep_view() == watch_frames(pairs@),
{
    let mut frames: Vec<Frame> = Vec::new();
    let mut i: usize = 0;
    assert(frames.deep_view() =~= watch_frames(pairs@.take(0)));
    while i < pairs.len()
        invariant
            i <= pairs@.len(),
            frames.deep_view() == watch_frames(pairs@.take(i as int)),
        decreases pairs@.len() - i,
    {
        let ghost before = frames.deep_view();
        frames.push(Frame::Watch { target: pairs[i].0, watcher: pairs[i].1 });
        i = i + 1;
        assert(frames.deep_view() =~= before.push(watch_frames(pairs@)[i - 1]));
        assert(watch_frames(pairs@.take(i as int)) =~= watch_frames(pairs@.take(i - 1)).push(
            watch_frames(pairs@)[i - 1],
        ));
    }
    assert(pairs@.take(i as int) =~= pairs@);
    frames
}

impl<H, S, R, D: FailureDetector> EndpointModel<H, S, R, D> {
    /// What is watched on a peer re-asserted, unless it is dead or its lane disconnected.
    pub open spec fn reasserted(self, peer: NodeId) -> EndpointModel<H, S, R, D> {
        if self.membership.is_down(peer) || self.outbound.lanes.connected(peer.addr) == Some(
            false,
        ) {
            self
        } else {
            self.sent_each(peer, watch_frames(watch_pairs(self.watchers, peer)))
        }
    }

    pub open spec fn reasserted_all(self, peers: Seq<NodeId>) -> EndpointModel<H, S, R, D>
        decreases peers.len(),
    {
        if peers.len() == 0 {
            self
        } else {
            self.reasserted_all(peers.drop_last()).reasserted(peers.last())
        }
    }
}

impl<H, S, R, D: FailureDetector, F: FailureDetectorFactory<D>> Endpoint<H, S, R, D, F> {
    /// Observes this node's links to the peers.
    fn observe_all(&mut self, peers: &Vec<NodeId>, at: u128)
        requires
            old(self).wf(),
        ensures
            final(self).wf(),
            final(self)@ == old(self)@.observed(peers@, at),
            final(self).spec_detectors() == old(self).spec_detectors(),
            final(self).membership == old(self).membership,
    {
        let mut i: usize = 0;
        assert(peers@.take(0) =~= Seq::empty());
        while i < peers.len()
            invariant
                self.wf(),
                i <= peers@.len(),
                self@ == old(self)@.observed(peers@.take(i as int), at),
                self.detectors == old(self).spec_detectors(),
                self.membership == old(self).membership,
            decreases peers@.len() - i,
        {
            proof {
                assert(peers@.take(i + 1).drop_last() =~= peers@.take(i as int));
                assert(peers@.take(i + 1).last() == peers@[i as int]);
            }
            let available = self.liveness.is_available(peers[i], at);
            let _ = self.reachability.observe(peers[i], available);
            i = i + 1;
        }
        assert(peers@.take(i as int) =~= peers@);
    }

    /// One membership round up to the downing decision: gossips, observes this node's links, admits
    /// parked statements and pushes what is news. None once this node is downed.
    pub fn begin_round(&mut self, at: u128) -> (round: Option<Round>)
        requires
            old(self).wf(),
        ensures
            final(self).wf(),
            round is None == old(self)@.is_downed(),
            round is None ==> final(self)@ == old(self)@,
            round matches Some(round) ==> {
                &&& final(self)@ == old(self)@.rounded(at)
                &&& round.members@ == old(self)@.membership.listed()
                &&& round.disconnected@ == final(self)@.reachability.unreachable(round.members@)
            },
            final(self).spec_detectors() == old(self).spec_detectors(),
    {
        if self.downed() {
            return None;
        }
        let ghost before = self@;
        self.fan_out_gossip(Towards::NotDisconnected);
        let peers = self.membership.up_peers();
        self.observe_all(&peers, at);
        proof {
            lemma_observed_keeps(
                before.fanned_out(before.gossip(), Towards::NotDisconnected),
                peers@,
                at,
            );
        }
        let up = self.membership.up_nodes();
        self.reachability.promote_pending(up.as_slice());
        let news = self.reachability.take_outbound(up.as_slice());
        self.push_reachability(news);
        assert(self@ =~= before.gossiped_and_observed(at));
        let members = self.membership.members();
        let disconnected = self.reachability.unreachable_members(members.as_slice(), at);
        assert(self@ =~= before.rounded(at));
        Some(Round { members, disconnected })
    }

    /// Carries out the downing decision and ends the round; whether there is to be another one.
    pub fn end_round(&mut self, verdict: Downing, at: u128) -> (more: bool)
        requires
            old(self).wf(),
        ensures
            final(self).wf(),
            more == (verdict@ is Members),
            final(self)@ == old(self)@.settled(verdict@, at),
            final(self).spec_detectors() == old(self).spec_detectors(),
    {
        let ghost before = self@;
        match verdict {
            Downing::Members(members) => {
                let nodes = nodes_of_members(&members);
                self.node_deaths(&nodes, at);
                let ghost downed = self@;
                proof {
                    lemma_deaths_keep_the_config(before, nodes@, at);
                }
                let retention: u128 = self.config.down_retention;
                self.membership.sweep(retention, at);
                self.untrack_idle_peers();
                assert(self@ =~= before.settled(DowningModel::Members(members@), at));
                true
            },
            Downing::SelfDown => {
                let _ = self.self_down(at);
                false
            },
        }
    }

    /// Forgets the liveness of peers which are no members and hold nothing.
    pub fn untrack_idle_peers(&mut self)
        requires
            old(self).wf(),
        ensures
            final(self).wf(),
            final(self)@ == (EndpointModel {
                liveness: Map::new(
                    |n: NodeId|
                        old(self)@.liveness.dom().contains(n) && (
                        old(self)@.membership.up_nodes().contains(n)
                            || old(self)@.liveness[n].holders > 0),
                    |n: NodeId| old(self)@.liveness[n],
                ),
                ..old(self)@
            }),
            final(self).spec_detectors() == old(self).spec_detectors(),
    {
        let up = self.membership.up_nodes();
        self.liveness.retain_with(up.as_slice());
    }

    fn reassert(&mut self, peer: NodeId)
        requires
            old(self).wf(),
        ensures
            final(self).wf(),
            final(self)@ == old(self)@.reasserted(peer),
    {
        if self.membership.is_down(peer) {
            return ;
        }
        if let Some(connected) = self.lane_connected(peer.addr) {
            if !connected {
                return ;
            }
        }
        let pairs = self.watchers.watches(peer);
        let frames = frames_of_watches(&pairs);
        let _ = self.send_each(peer, frames);
    }

    /// Re-asserts every remote watch, which makes up for a terminated signal lost with its
    /// connection; whether there is to be another round.
    pub fn refresh_watches(&mut self) -> (more: bool)
        requires
            old(self).wf(),
        ensures
            final(self).wf(),
            more == !old(self)@.is_downed(),
            final(self)@ == if more {
                old(self)@.reasserted_all(watched_peers(old(self)@.watchers))
            } else {
                old(self)@
            },
    {
        if self.downed() {
            return false;
        }
        let peers = self.watchers.peers();
        let mut i: usize = 0;
        assert(peers@.take(0) =~= Seq::empty());
        while i < peers.len()
            invariant
                self.wf(),
                i <= peers@.len(),
                self@ == old(self)@.reasserted_all(peers@.take(i as int)),
            decreases peers@.len() - i,
        {
            proof {
                assert(peers@.take(i + 1).drop_last() =~= peers@.take(i as int));
                assert(peers@.take(i + 1).last() == peers@[i as int]);
            }
            self.reassert(peers[i]);
            i = i + 1;
        }
        assert(peers@.take(i as int) =~= peers@);
        true
    }
}

fn nodes_of_members(members: &Vec<Member>) -> (nodes: Vec<NodeId>)
    ensures
        nodes@ == member_nodes(members@),
{
    let mut nodes: Vec<NodeId> = Vec::new();
    let mut i: usize = 0;
    while i < members.len()
        invariant
            i <= members@.len(),
            nodes@ =~= member_nodes(members@.take(i as int)),
        decreases members@.len() - i,
    {
        nodes.push(members[i].node);
        i = i + 1;
    }
    assert(members@.take(i as int) =~= members@);
    nodes
}

/// Observing a link changes nothing but what is known of the links.
pub proof fn lemma_observed_keeps<H, S, R, D: FailureDetector>(
    endpoint: EndpointModel<H, S, R, D>,
    peers: Seq<NodeId>,
    at: u128,
)
    ensures
        endpoint.observed(peers, at) == (EndpointModel {
            reachability: endpoint.observed(peers, at).reachability,
            ..endpoint
        }),
        endpoint.observed(peers, at).reachability.node == endpoint.reachability.node,
    decreases peers.len(),
{
    if peers.len() > 0 {
        lemma_observed_keeps(endpoint, peers.drop_last(), at);
    }
}

proof fn lemma_deaths_keep_the_config<H, S, R, D: FailureDetector>(
    endpoint: EndpointModel<H, S, R, D>,
    peers: Seq<NodeId>,
    at: u128,
)
    ensures
        endpoint.dead_all(peers, at).config == endpoint.config,
    decreases peers.len(),
{
    if peers.len() > 0 {
        lemma_deaths_keep_the_config(endpoint, peers.drop_last(), at);
    }
}

/// Whatever is lost on the way, a watch on a live peer whose lane is connected is asserted again in
/// the next round: its frame is among those sent.
pub proof fn a_round_reasserts_every_watch<H>(
    watchers: Seq<(crate::cluster::watch::WatchKey, H)>,
    i: int,
)
    requires
        0 <= i < watchers.len(),
    ensures
        watched_peers(watchers).contains(watchers[i].0.peer),
        watch_frames(watch_pairs(watchers, watchers[i].0.peer)).contains(
            FrameModel::Watch { target: watchers[i].0.target, watcher: watchers[i].0.watcher },
        ),
{
    lemma_peer_is_watched(watchers, i);
    let p = crate::cluster::watch::is_of_peer::<H>(watchers[i].0.peer);
    assert(watchers.contains(watchers[i]));
    crate::seqs::lemma_filter_contains(watchers, p, watchers[i]);
    let of_peer = watchers.filter(p);
    let k = choose|k: int| 0 <= k < of_peer.len() && of_peer[k] == watchers[i];
    let frames = watch_frames(watch_pairs(watchers, watchers[i].0.peer));
    assert(frames[k] == (FrameModel::Watch {
        target: watchers[i].0.target,
        watcher: watchers[i].0.watcher,
    }));
}

proof fn lemma_peer_is_watched<H>(
    watchers: Seq<(crate::cluster::watch::WatchKey, H)>,
    i: int,
)
    requires
        0 <= i < watchers.len(),
    ensures
        watched_peers(watchers).contains(watchers[i].0.peer),
    decreases watchers.len(),
{
    let rest = watchers.drop_last();
    let peers = watched_peers(rest);
    let last = watchers.last().0.peer;
    if i < rest.len() {
        lemma_peer_is_watched(rest, i);
        assert(rest[i] == watchers[i]);
        let k = choose|k: int| 0 <= k < peers.len() && peers[k] == watchers[i].0.peer;
        if !peers.contains(last) {
            assert(peers.push(last)[k] == watchers[i].0.peer);
        }
    } else if !peers.contains(last) {
        assert(peers.push(last)[peers.len() as int] == last);
    }
}

/// A round states what it sees: every peer observed is stated reachable exactly if its detector has it
/// available, a peer without one counting as available. What is stated of others stays.
pub proof fn a_round_states_what_it_sees<H, S, R, D: FailureDetector>(
    endpoint: EndpointModel<H, S, R, D>,
    peers: Seq<NodeId>,
    at: u128,
    subject: NodeId,
)
    requires
        forall|e: crate::cluster::reachability::Edge| #[trigger]
            endpoint.reachability.observations.dom().contains(e) && e.observer
                == endpoint.reachability.node ==> endpoint.reachability.observations[e].version
                < endpoint.reachability.next_version,
        endpoint.reachability.next_version + peers.len() <= u64::MAX,
    ensures
        ({
            let after = endpoint.observed(peers, at).reachability;
            let available = endpoint.liveness.dom().contains(subject)
                ==> endpoint.liveness[subject].detector.available(at);
            &&& peers.contains(subject) ==> after.states(subject) == available
            &&& !peers.contains(subject) ==> after.states(subject)
                == endpoint.reachability.states(subject)
            &&& after.node == endpoint.reachability.node
            &&& after.next_version <= endpoint.reachability.next_version + peers.len()
            &&& forall|e: crate::cluster::reachability::Edge| #[trigger]
                after.observations.dom().contains(e) && e.observer == after.node
                    ==> after.observations[e].version < after.next_version
        }),
    decreases peers.len(),
{
    if peers.len() > 0 {
        let fewer = peers.drop_last();
        let last = peers.last();
        a_round_states_what_it_sees(endpoint, fewer, at, subject);
        lemma_observed_keeps(endpoint, fewer, at);
        let before = endpoint.observed(fewer, at);
        assert(peers =~= fewer.push(last));
        crate::seqs::lemma_contains_push(fewer, last, subject);
        crate::cluster::reachability::a_change_is_stated_once(
            before.reachability,
            last,
            before.is_available(last, at),
        );
    }
}

/// A verdict is carried out: the lost members die one by one and what is long dead is swept, and no
/// peer which is neither a member nor held is attended to any longer. A verdict on this node ends it.
pub proof fn a_verdict_is_carried_out<H, S, R, D: FailureDetector>(
    endpoint: EndpointModel<H, S, R, D>,
    members: Seq<Member>,
    at: u128,
    peer: NodeId,
)
    ensures
        endpoint.settled(DowningModel::SelfDown, at) == endpoint.ended(at),
        ({
            let after = endpoint.settled(DowningModel::Members(members), at);
            let dead = endpoint.dead_all(members.map_values(|m: Member| m.node), at);
            &&& after.membership == dead.membership.swept(endpoint.config.down_retention, at)
            &&& after.liveness.dom().contains(peer) <==> dead.liveness.dom().contains(peer) && (
            after.membership.up_nodes().contains(peer) || dead.liveness[peer].holders > 0)
            &&& after.liveness.dom().contains(peer) ==> after.liveness[peer] == dead.liveness[peer]
            &&& after.outbound == dead.outbound && after.signals == dead.signals && after.watchers
                == dead.watchers
        }),
{
}

/// The watches on a peer are asserted again unless the peer is dead or its lane disconnected: each by
/// its target and watcher, and nothing else is sent.
pub proof fn watches_are_asserted_to_the_living<H, S, R, D: FailureDetector>(
    endpoint: EndpointModel<H, S, R, D>,
    peer: NodeId,
)
    ensures
        ({
            let after = endpoint.reasserted(peer);
            let lanes = endpoint.outbound.lanes.lanes;
            let left_out = endpoint.membership.is_down(peer) || (lanes.dom().contains(peer.addr)
                && !lanes[peer.addr].connected);
            let pairs = watch_pairs(endpoint.watchers, peer);
            let frames = Seq::new(
                pairs.len(),
                |i: int| FrameModel::Watch { target: pairs[i].0, watcher: pairs[i].1 },
            );
            &&& left_out ==> after == endpoint
            &&& !left_out ==> after.outbound == endpoint.outbound.sent_each(
                endpoint.membership,
                endpoint.is_downed(),
                peer,
                frames,
            )
            &&& after == (EndpointModel { outbound: after.outbound, ..endpoint })
        }),
{
    let pairs = watch_pairs(endpoint.watchers, peer);
    let frames = Seq::new(
        pairs.len(),
        |i: int| FrameModel::Watch { target: pairs[i].0, watcher: pairs[i].1 },
    );
    assert(watch_frames(pairs) =~= frames);
}

/// A round gossips the whole list to every peer whose lane is not disconnected, observes every peer,
/// takes in the statements which waited for their ends, and passes on what is to be passed on; then it
/// marks who is out of reach.
pub proof fn a_round_gossips_then_states<H, S, R, D: FailureDetector>(
    endpoint: EndpointModel<H, S, R, D>,
    at: u128,
)
    ensures
        ({
            let up = endpoint.membership.up_nodes();
            let told = endpoint.fanned_out(endpoint.gossip(), Towards::NotDisconnected);
            let observed = told.observed(endpoint.membership.up_peers(), at);
            let promoted = observed.reachability.promoted(up);
            let records = promoted.outbound(up);
            let stated = EndpointModel {
                reachability: crate::cluster::reachability::ReachabilityModel {
                    forward: Map::empty(),
                    ..promoted
                },
                ..observed
            };
            let sent = endpoint.gossiped_and_observed(at);
            &&& records.len() == 0 || endpoint.is_downed() ==> sent == stated
            &&& records.len() > 0 && !endpoint.is_downed() ==> sent == stated.fanned_out(
                crate::cluster::reachability::reachability_frames(
                    records,
                    crate::cluster::reachability::statements_per_frame(
                        endpoint.config.max_frame_size,
                    ),
                ),
                Towards::NotDisconnected,
            )
            &&& endpoint.rounded(at) == (EndpointModel {
                reachability: sent.reachability.marked(
                    crate::cluster::reachability::up_of(sent.membership.listed()),
                    at,
                ),
                ..sent
            })
        }),
{
    lemma_observed_keeps(
        endpoint.fanned_out(endpoint.gossip(), Towards::NotDisconnected),
        endpoint.membership.up_peers(),
        at,
    );
}

} // verus!
