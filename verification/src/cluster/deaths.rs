//! Node deaths: an incarnation found dead is marked Down, everything held of it is let go, and the
//! members are told.

use vstd::prelude::*;

use crate::addr::SocketAddr;
use crate::cluster::endpoint::{is_not_among, lane_views, Endpoint, EndpointModel};
use crate::cluster::failure::{FailureDetector, FailureDetectorFactory};
use crate::cluster::lanes::Generation;
use crate::cluster::membership::WireMember;
use crate::cluster::reachability::has_node;
use crate::cluster::watch::{is_at_addr, is_fenced};
use crate::ids::NodeId;
use crate::seqs::{lemma_filter_start, lemma_filter_step};
use crate::watch::Watcher;

verus! {

/// Appends what was taken, in order.
fn extend<T>(items: &mut Vec<T>, taken: Vec<T>)
    ensures
        final(items)@ == old(items)@ + taken@,
{
    let mut rest = taken;
    items.append(&mut rest);
}

proof fn lemma_set_of_both<A>(a: Seq<A>, b: Seq<A>)
    ensures
        (a + b).to_set() == a.to_set().union(b.to_set()),
{
    assert forall|x: A| #[trigger] (a + b).contains(x) == (a.contains(x) || b.contains(x)) by {
        if (a + b).contains(x) {
            let i = choose|i: int| 0 <= i < (a + b).len() && (a + b)[i] == x;
            if i < a.len() {
                assert(a[i] == x);
            } else {
                assert(b[i - a.len()] == x);
            }
        }
        if a.contains(x) {
            let i = choose|i: int| 0 <= i < a.len() && a[i] == x;
            assert((a + b)[i] == x);
        }
        if b.contains(x) {
            let i = choose|i: int| 0 <= i < b.len() && b[i] == x;
            assert((a + b)[a.len() + i] == x);
        }
    }
    assert((a + b).to_set() =~= a.to_set().union(b.to_set()));
}

impl<H, S, R, D: FailureDetector, F: FailureDetectorFactory<D>> Endpoint<H, S, R, D, F> {
    /// Lets go of everything held of the incarnations the fence covers. Deliveries from them are
    /// over: each takes the endpoint for its whole length.
    pub fn flush_fenced(&mut self, fence: NodeId)
        requires
            old(self).wf(),
        ensures
            final(self).wf(),
            final(self)@ == old(self)@.flushed(fence),
            final(self).spec_detectors() == old(self).spec_detectors(),
    {
        let ghost before = self@;
        match self.outbound.lanes.remove_fenced(fence) {
            Some(lane) => {
                let ghost retired = self.retired@;
                self.retired.push(lane);
                assert(lane_views(self.retired@) =~= lane_views(retired).push(lane@));
            },
            None => {},
        }
        self.reachability.prune_fenced(fence);
        self.pending_lookups.fail_fenced(fence);
        self.pending_replies.fail_fenced(fence);
        let told = self.watchers.take_fenced(fence);
        extend(&mut self.signals, told);
        let registered = self.wire_watches.take_fenced(fence);
        proof {
            lemma_set_of_both(self.released@, registered@);
        }
        extend(&mut self.released, registered);
        self.liveness.untrack_fenced(fence);
        assert(self@.wire_watches =~= before.flushed(fence).wire_watches);
        assert(self@.liveness =~= before.flushed(fence).liveness);
        assert(self@.outbound =~= before.flushed(fence).outbound);
        assert(self@.retired =~= before.flushed(fence).retired);
        assert(self@ =~= before.flushed(fence));
    }

    /// Runs the death of an incarnation, if it is news.
    pub fn node_death(&mut self, peer: NodeId, at: u128)
        requires
            old(self).wf(),
        ensures
            final(self).wf(),
            final(self)@ == old(self)@.dead(peer, at),
            final(self).spec_detectors() == old(self).spec_detectors(),
    {
        let down = self.membership.down(peer, at);
        if !down.member_changed && !down.watermark_changed {
            return ;
        }
        self.flush_fenced(peer);
        if down.member_changed {
            self.push_gossip();
        }
    }

    fn flush_all(&mut self, fences: &Vec<NodeId>)
        requires
            old(self).wf(),
        ensures
            final(self).wf(),
            final(self)@ == old(self)@.flushed_all(fences@),
            final(self).spec_detectors() == old(self).spec_detectors(),
    {
        let mut i: usize = 0;
        assert(fences@.take(0) =~= Seq::empty());
        while i < fences.len()
            invariant
                self.wf(),
                i <= fences@.len(),
                self@ == old(self)@.flushed_all(fences@.take(i as int)),
                self.detectors == old(self).spec_detectors(),
            decreases fences@.len() - i,
        {
            proof {
                assert(fences@.take(i + 1).drop_last() =~= fences@.take(i as int));
                assert(fences@.take(i + 1).last() == fences@[i as int]);
            }
            self.flush_fenced(fences[i]);
            i = i + 1;
        }
        assert(fences@.take(i as int) =~= fences@);
    }

    /// Runs the deaths of the incarnations, in order.
    pub fn node_deaths(&mut self, peers: &Vec<NodeId>, at: u128)
        requires
            old(self).wf(),
        ensures
            final(self).wf(),
            final(self)@ == old(self)@.dead_all(peers@, at),
            final(self).spec_detectors() == old(self).spec_detectors(),
    {
        let mut i: usize = 0;
        assert(peers@.take(0) =~= Seq::empty());
        while i < peers.len()
            invariant
                self.wf(),
                i <= peers@.len(),
                self@ == old(self)@.dead_all(peers@.take(i as int), at),
                self.detectors == old(self).spec_detectors(),
            decreases peers@.len() - i,
        {
            proof {
                assert(peers@.take(i + 1).drop_last() =~= peers@.take(i as int));
                assert(peers@.take(i + 1).last() == peers@[i as int]);
            }
            self.node_death(peers[i], at);
            i = i + 1;
        }
        assert(peers@.take(i as int) =~= peers@);
    }

    fn track_all(&mut self, peers: &Vec<NodeId>, at: u128)
        requires
            old(self).wf(),
        ensures
            final(self).wf(),
            final(self)@ == old(self)@.armed_all(peers@, at),
            final(self).spec_detectors() == old(self).spec_detectors(),
    {
        let mut i: usize = 0;
        assert(peers@.take(0) =~= Seq::empty());
        while i < peers.len()
            invariant
                self.wf(),
                i <= peers@.len(),
                self@ == old(self)@.armed_all(peers@.take(i as int), at),
                self.detectors == old(self).spec_detectors(),
            decreases peers@.len() - i,
        {
            proof {
                assert(peers@.take(i + 1).drop_last() =~= peers@.take(i as int));
                assert(peers@.take(i + 1).last() == peers@[i as int]);
            }
            self.track_liveness(peers[i], at);
            i = i + 1;
        }
        assert(peers@.take(i as int) =~= peers@);
    }

    /// Merges gossip and carries out what it asks for: new members are tracked, dead ones die, fences
    /// learned are flushed, and news is gossiped on. Gossip which downs this node ends it.
    pub fn on_gossip(&mut self, members: &[WireMember], at: u128)
        requires
            old(self).wf(),
        ensures
            final(self).wf(),
            final(self)@ == old(self)@.gossiped(members@, at),
            final(self).spec_detectors() == old(self).spec_detectors(),
    {
        let merge = self.membership.merge(members, at);
        if merge.self_down {
            self.flush_all(&merge.to_flush);
            let _ = self.self_down(at);
            return ;
        }
        let changed = merge.new_up.len() > 0 || merge.to_down.len() > 0;
        self.track_all(&merge.new_up, at);
        self.node_deaths(&merge.to_down, at);
        let left = without_nodes(&merge.to_flush, &merge.to_down);
        self.flush_all(&left);
        if changed {
            self.push_gossip();
        }
    }

    /// Gives up a generation's lane if it is still the one of its address, and hands it out with what
    /// is left in its queues.
    pub fn give_up_lane(&mut self, addr: SocketAddr, lane_id: Generation) -> (lane: Option<
        crate::cluster::lanes::Lane,
    >)
        requires
            old(self).wf(),
        ensures
            final(self).wf(),
            lane is Some == old(self)@.outbound.lanes.has_lane(addr, lane_id),
            lane matches Some(l) ==> l@ == old(self)@.outbound.lanes.lanes[addr] && final(self)@
                == old(self)@.given_up(addr),
            lane is None ==> final(self)@ == old(self)@,
            final(self).spec_detectors() == old(self).spec_detectors(),
    {
        let ghost before = self@;
        match self.outbound.lanes.remove(addr, lane_id) {
            Some(lane) => {
                self.pending_lookups.fail_addr(addr);
                self.pending_replies.fail_addr(addr);
                self.fail_watchers_at(addr);
                assert(self@ =~= before.given_up(addr));
                Some(lane)
            },
            None => None,
        }
    }

    /// Tells the watchers of every actor of any incarnation at the address.
    pub fn fail_watchers_at(&mut self, addr: SocketAddr)
        requires
            old(self).wf(),
        ensures
            final(self).wf(),
            final(self)@ == old(self)@.told(is_at_addr(addr)),
            final(self).spec_detectors() == old(self).spec_detectors(),
    {
        let told = self.watchers.take_addr(addr);
        extend(&mut self.signals, told);
    }
}

fn without_nodes(nodes: &Vec<NodeId>, gone: &Vec<NodeId>) -> (left: Vec<NodeId>)
    ensures
        left@ == nodes@.filter(is_not_among(gone@)),
{
    let ghost p = is_not_among(gone@);
    let mut left: Vec<NodeId> = Vec::new();
    let mut i: usize = 0;
    proof {
        lemma_filter_start(nodes@, p);
    }
    while i < nodes.len()
        invariant
            i <= nodes@.len(),
            p == is_not_among(gone@),
            left@ == nodes@.take(i as int).filter(p),
        decreases nodes@.len() - i,
    {
        proof {
            lemma_filter_step(nodes@, p, i as int);
        }
        if !has_node(gone.as_slice(), nodes[i]) {
            left.push(nodes[i]);
        }
        i = i + 1;
    }
    proof {
        lemma_filter_start(nodes@, p);
    }
    left
}

/// After a node death nothing is left which belongs to an incarnation it covers: no lane bound to
/// one, no lookup or ask waiting for one, no watch on or by one, and no trace of its liveness.
pub proof fn a_death_leaves_nothing_behind<H, S, R, D: FailureDetector>(
    endpoint: EndpointModel<H, S, R, D>,
    fence: NodeId,
    peer: NodeId,
)
    requires
        fence.fences(peer),
    ensures
        ({
            let after = endpoint.flushed(fence);
            &&& !after.outbound.lanes.is_fenced(fence)
            &&& !after.liveness.dom().contains(peer)
            &&& forall|i: int| 0 <= i < after.lookups.len() ==> (#[trigger] after.lookups[i]).1.peer != peer
            &&& forall|n| #[trigger] after.replies.dom().contains(n) ==> after.replies[n].peer != Some(peer)
            &&& forall|i: int| 0 <= i < after.watchers.len() ==> (#[trigger] after.watchers[i]).0.peer != peer
            &&& forall|k| #[trigger] after.wire_watches.dom().contains(k) ==> k.peer != peer
        }),
{
    broadcast use vstd::seq_lib::group_filter_ensures;
    let after = endpoint.flushed(fence);
    let p = crate::cluster::discovery::is_lookup_beyond::<S>(fence);
    assert forall|i: int| 0 <= i < after.lookups.len() implies (#[trigger] after.lookups[i]).1.peer
        != peer by {
        crate::seqs::lemma_filter_contains(endpoint.lookups, p, after.lookups[i]);
        assert(after.lookups.contains(after.lookups[i]));
    }
    let q = crate::cluster::watch::is_not(is_fenced::<H>(fence));
    assert forall|i: int| 0 <= i < after.watchers.len() implies (#[trigger] after.watchers[i]).0.peer
        != peer by {
        crate::seqs::lemma_filter_contains(endpoint.watchers, q, after.watchers[i]);
        assert(after.watchers.contains(after.watchers[i]));
    }
}

/// Every watcher of an actor on a dead node is told of that actor's termination.
pub proof fn a_death_tells_every_watcher<H, S, R, D: FailureDetector>(
    endpoint: EndpointModel<H, S, R, D>,
    fence: NodeId,
    i: int,
)
    requires
        0 <= i < endpoint.watchers.len(),
        fence.fences(endpoint.watchers[i].0.peer),
    ensures
        ({
            let (key, handler) = endpoint.watchers[i];
            endpoint.flushed(fence).signals.contains(
                (key.target, Watcher { watcher_id: key.watcher, handler }),
            )
        }),
{
    let p = is_fenced::<H>(fence);
    let e = endpoint.watchers[i];
    assert(endpoint.watchers.contains(e));
    crate::seqs::lemma_filter_contains(endpoint.watchers, p, e);
    let taken = endpoint.watchers.filter(p);
    let k = choose|k: int| 0 <= k < taken.len() && taken[k] == e;
    let told = crate::cluster::watch::signals(taken);
    assert(told[k] == (e.0.target, Watcher { watcher_id: e.0.watcher, handler: e.1 }));
    assert(endpoint.flushed(fence).signals[endpoint.signals.len() + k] == told[k]);
}

/// A death known already changes nothing.
pub proof fn a_known_death_is_no_news<H, S, R, D: FailureDetector>(
    endpoint: EndpointModel<H, S, R, D>,
    peer: NodeId,
    at: u128,
)
    requires
        endpoint.membership.wf(),
        !endpoint.membership.is_up(peer),
        !endpoint.membership.raises(peer),
    ensures
        endpoint.dead(peer, at) == endpoint,
{
    assert(endpoint.dead(peer, at) =~= endpoint);
}

/// A death takes nothing of a node it does not cover: its lane, its liveness, the lookups and replies
/// it owes, and the watches on and by it stay as they are.
pub proof fn a_death_spares_the_others<H, S, R, D: FailureDetector>(
    endpoint: EndpointModel<H, S, R, D>,
    fence: NodeId,
    peer: NodeId,
    lookup: (crate::ids::Nonce, crate::cluster::discovery::PendingLookup<S>),
    watch: (crate::cluster::watch::WatchKey, H),
    nonce: crate::ids::Nonce,
    key: crate::cluster::watch::WireWatchKey,
)
    requires
        peer.addr != fence.addr || peer.incarnation.0 > fence.incarnation.0,
    ensures
        ({
            let after = endpoint.flushed(fence);
            &&& after.membership == endpoint.membership && after.coordinator
                == endpoint.coordinator
            &&& after.liveness.dom().contains(peer) == endpoint.liveness.dom().contains(peer)
            &&& after.liveness.dom().contains(peer) ==> after.liveness[peer]
                == endpoint.liveness[peer]
            &&& lookup.1.peer == peer ==> after.lookups.contains(lookup)
                == endpoint.lookups.contains(lookup)
            &&& watch.0.peer == peer ==> after.watchers.contains(watch)
                == endpoint.watchers.contains(watch)
            &&& endpoint.replies.dom().contains(nonce) && (endpoint.replies[nonce].peer == Some(peer)
                || endpoint.replies[nonce].peer is None) ==> after.replies.dom().contains(nonce)
                && after.replies[nonce] == endpoint.replies[nonce]
            &&& key.peer == peer && endpoint.wire_watches.dom().contains(key)
                ==> after.wire_watches.dom().contains(key) && after.wire_watches[key]
                == endpoint.wire_watches[key]
            &&& endpoint.outbound.lanes.lanes.dom().contains(peer.addr) && (peer.addr != fence.addr
                || endpoint.outbound.lanes.lanes[peer.addr].peer == Some(peer)
                || endpoint.outbound.lanes.lanes[peer.addr].peer is None)
                ==> after.outbound.lanes.lanes.dom().contains(peer.addr)
                && after.outbound.lanes.lanes[peer.addr] == endpoint.outbound.lanes.lanes[peer.addr]
        }),
{
    let p = crate::cluster::discovery::is_lookup_beyond::<S>(fence);
    crate::seqs::lemma_filter_contains(endpoint.lookups, p, lookup);
    let q = crate::cluster::watch::is_not(is_fenced::<H>(fence));
    crate::seqs::lemma_filter_contains(endpoint.watchers, q, watch);
}

/// The death of a member is recorded, flushed and gossiped; one of a node which is not listed Up is
/// recorded and flushed where it is news.
pub proof fn a_death_is_carried_out<H, S, R, D: FailureDetector>(
    endpoint: EndpointModel<H, S, R, D>,
    peer: NodeId,
    at: u128,
)
    ensures
        ({
            let after = endpoint.dead(peer, at);
            let marked = EndpointModel {
                membership: endpoint.membership.downed(peer, at),
                ..endpoint
            };
            let news = !endpoint.membership.is_down(peer);
            &&& endpoint.membership.is_up(peer) ==> after == marked.flushed(peer).pushed_gossip()
            &&& !endpoint.membership.is_up(peer) && endpoint.membership.wf() ==> after == (if news {
                marked.flushed(peer)
            } else {
                marked
            })
            &&& endpoint.membership.wf() ==> after.membership == endpoint.membership.downed(peer, at)
        }),
{
    if endpoint.membership.wf() {
        crate::cluster::convergence::a_node_is_what_the_list_says(endpoint.membership, peer);
    }
}

/// An address given up takes its lane along, the lookups and replies owed by it, and the watches at
/// it, whose watchers are told; nothing at another address is touched.
pub proof fn an_address_given_up_fails_what_waits<H, S, R, D: FailureDetector>(
    endpoint: EndpointModel<H, S, R, D>,
    addr: SocketAddr,
    lookup: (crate::ids::Nonce, crate::cluster::discovery::PendingLookup<S>),
    watch: (crate::cluster::watch::WatchKey, H),
    nonce: crate::ids::Nonce,
)
    ensures
        ({
            let after = endpoint.given_up(addr);
            let told = (
                watch.0.target,
                Watcher { watcher_id: watch.0.watcher, handler: watch.1 },
            );
            let peer = endpoint.replies[nonce].peer;
            &&& after.outbound.lanes.lanes == endpoint.outbound.lanes.lanes.remove(addr)
            &&& after.lookups.contains(lookup) <==> endpoint.lookups.contains(lookup)
                && lookup.1.peer.addr != addr
            &&& after.watchers.contains(watch) <==> endpoint.watchers.contains(watch)
                && watch.0.peer.addr != addr
            &&& endpoint.watchers.contains(watch) && watch.0.peer.addr == addr
                ==> after.signals.contains(told)
            &&& after.replies.dom().contains(nonce) <==> endpoint.replies.dom().contains(nonce) && (
            peer is None || peer->0.addr != addr)
            &&& after.membership == endpoint.membership && after.liveness == endpoint.liveness
                && after.wire_watches == endpoint.wire_watches && after.coordinator
                == endpoint.coordinator
        }),
{
    let p = crate::cluster::discovery::is_lookup_elsewhere::<S>(addr);
    crate::seqs::lemma_filter_contains(endpoint.lookups, p, lookup);
    let q = is_at_addr::<H>(addr);
    crate::seqs::lemma_filter_contains(endpoint.watchers, crate::cluster::watch::is_not(q), watch);
    crate::seqs::lemma_filter_contains(endpoint.watchers, q, watch);
    if endpoint.watchers.contains(watch) && watch.0.peer.addr == addr {
        let taken = endpoint.watchers.filter(q);
        let k = choose|k: int| 0 <= k < taken.len() && taken[k] == watch;
        let told = crate::cluster::watch::signals(taken);
        assert(told[k] == (
            watch.0.target,
            Watcher { watcher_id: watch.0.watcher, handler: watch.1 },
        ));
        assert(endpoint.given_up(addr).signals[endpoint.signals.len() + k] == told[k]);
    }
}

/// What a death has the endpoint let go of locally: the watches a covered peer had registered here, on
/// top of what was to be let go of already.
pub proof fn a_death_releases_its_watches<H, S, R, D: FailureDetector>(
    endpoint: EndpointModel<H, S, R, D>,
    fence: NodeId,
    watch: crate::cluster::watch::RegisteredWatch,
)
    ensures
        endpoint.flushed(fence).released.contains(watch) <==> endpoint.released.contains(watch)
            || exists|key: crate::cluster::watch::WireWatchKey| #[trigger]
            endpoint.wire_watches.dom().contains(key) && key.target == watch.target && key.peer.addr
                == fence.addr && key.peer.incarnation.0 <= fence.incarnation.0
                && endpoint.wire_watches[key].wire_watcher_id == Some(watch.wire_watcher_id),
{
}

/// Gossip is acted on: members learned are attended to, those to be downed die, and fences heard of
/// are flushed; where anything changed the list is passed on. Gossip of this node's own death ends it.
pub proof fn gossip_is_acted_on<H, S, R, D: FailureDetector>(
    endpoint: EndpointModel<H, S, R, D>,
    members: Seq<WireMember>,
    at: u128,
)
    ensures
        ({
            let merging = crate::cluster::membership::Merging::start(
                endpoint.membership,
            ).with_all(members, at);
            let merge = merging.merge;
            let merged = EndpointModel { membership: merging.membership, ..endpoint };
            let fences = merge.to_flush.filter(|n: NodeId| !merge.to_down.contains(n));
            let settled = merged.armed_all(merge.new_up, at).dead_all(
                merge.to_down,
                at,
            ).flushed_all(fences);
            let after = endpoint.gossiped(members, at);
            &&& merge.self_down ==> after == merged.flushed_all(merge.to_flush).ended(at)
            &&& !merge.self_down && (merge.new_up.len() > 0 || merge.to_down.len() > 0) ==> after
                == settled.pushed_gossip()
            &&& !merge.self_down && merge.new_up.len() == 0 && merge.to_down.len() == 0 ==> after
                == settled
        }),
{
    let merge = crate::cluster::membership::Merging::start(endpoint.membership).with_all(
        members,
        at,
    ).merge;
    assert(is_not_among(merge.to_down) =~= (|n: NodeId| !merge.to_down.contains(n)));
}

} // verus!
