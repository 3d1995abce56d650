//! The remoting endpoint of a process: what this node knows of the others and what each event does
//! to it. Instants are in nanoseconds; what is to be done outside is kept in the endpoint until it
//! is taken.

use vstd::prelude::*;

use crate::addr::SocketAddr;
use crate::cluster::addrs::AddrSet;
use crate::cluster::config::EndpointConfig;
use crate::cluster::connect::ConnectError;
use crate::cluster::coordinator::{Coordinator, FormError, Lifecycle};
use crate::cluster::discovery::{is_lookup_beyond, is_lookup_elsewhere, PendingLookup,
    PendingLookups};
use crate::cluster::downing::DowningModel;
use crate::cluster::failure::{FailureDetector, FailureDetectorFactory, Liveness, PeerLiveness};
use crate::cluster::frame::{Frame, FrameModel};
use crate::cluster::lanes::{Generation, Lane, LaneError, LaneModel, LanesModel};
use crate::cluster::membership::{self, gossip_frames, members_of, members_per_frame, Member,
    Membership, MembershipModel, Merging, WireMember};
use crate::cluster::outbound::{Outbound, OutboundModel, Towards};
use crate::cluster::reachability::{self, reachability_frames, statements_per_frame, up_of,
    Reachability, ReachabilityModel, WireReachability};
use crate::cluster::receptionist::WireRegistrationModel;
use crate::cluster::registry::Registry;
use crate::cluster::reply::{is_asked_beyond, is_asked_elsewhere, replies_where, PendingReplies,
    PendingReply};
use crate::cluster::watch::{is_at_addr, is_fenced, is_not, registered_under, signals,
    RegisteredWatch, WatchKey, WatcherTable, WireWatchKey, WireWatchModel, WireWatchTable};
use crate::ids::{ActorId, NodeId, Nonce};
use crate::watch::Watcher;

verus! {

/// The endpoint. `H` tells a watcher, `S` and `R` settle a lookup and an ask, `D` judges a peer and
/// `F` makes such judges.
#[derive(Debug)]
pub struct Endpoint<H, S, R, D, F> {
    pub(crate) node: NodeId,
    pub(crate) config: EndpointConfig,
    pub(crate) detectors: F,
    pub(crate) outbound: Outbound,
    pub(crate) membership: Membership,
    pub(crate) coordinator: Coordinator,
    pub(crate) liveness: Liveness<D>,
    pub(crate) reachability: Reachability,
    pub(crate) watchers: WatcherTable<H>,
    pub(crate) wire_watches: WireWatchTable,
    pub(crate) pending_lookups: PendingLookups<S>,
    pub(crate) pending_replies: PendingReplies<R>,
    pub(crate) registry: Registry,
    /// Moves whenever every connection is to be severed.
    pub(crate) severed: u64,
    /// The terminated signals owed to local watchers.
    pub(crate) signals: Vec<(ActorId, Watcher<H>)>,
    /// The local watchers of dead nodes, to be deregistered from the actors they watch.
    pub(crate) released: Vec<RegisteredWatch>,
    /// The lanes of dead nodes, whose writers have yet to empty them.
    pub(crate) retired: Vec<Lane>,
}

/// An [Endpoint] by value.
#[verifier::ext_equal]
pub ghost struct EndpointModel<H, S, R, D> {
    pub node: NodeId,
    pub config: EndpointConfig,
    /// The judge of a peer which is not tracked yet.
    pub fresh: D,
    pub outbound: OutboundModel,
    pub membership: MembershipModel,
    pub coordinator: Coordinator,
    pub liveness: Map<NodeId, PeerLiveness<D>>,
    pub reachability: ReachabilityModel,
    pub watchers: Seq<(WatchKey, H)>,
    pub wire_watches: Map<WireWatchKey, WireWatchModel>,
    pub lookups: Seq<(Nonce, PendingLookup<S>)>,
    pub next_lookup: u64,
    pub replies: Map<Nonce, PendingReply<R>>,
    pub next_reply: u64,
    pub registrations: Seq<WireRegistrationModel>,
    pub registrations_version: u64,
    pub severed: u64,
    pub signals: Seq<(ActorId, Watcher<H>)>,
    pub released: Set<RegisteredWatch>,
    pub retired: Seq<LaneModel>,
}

pub open spec fn next_severance(severed: u64) -> u64 {
    if severed == u64::MAX {
        0
    } else {
        (severed + 1) as u64
    }
}

pub open spec fn lane_views(lanes: Seq<Lane>) -> Seq<LaneModel> {
    lanes.map_values(|lane: Lane| lane@)
}

pub open spec fn is_not_among(nodes: Seq<NodeId>) -> spec_fn(NodeId) -> bool {
    |n: NodeId| !nodes.contains(n)
}

pub open spec fn member_nodes(members: Seq<Member>) -> Seq<NodeId> {
    members.map_values(|m: Member| m.node)
}

impl<H, S, R, D: FailureDetector, F: FailureDetectorFactory<D>> View for Endpoint<H, S, R, D, F> {
    type V = EndpointModel<H, S, R, D>;

    open(crate) spec fn view(&self) -> EndpointModel<H, S, R, D> {
        EndpointModel {
            node: self.node,
            config: self.config,
            fresh: self.detectors.made(),
            outbound: self.outbound@,
            membership: self.membership@,
            coordinator: self.coordinator,
            liveness: self.liveness.map(),
            reachability: self.reachability@,
            watchers: self.watchers@,
            wire_watches: self.wire_watches@,
            lookups: self.pending_lookups.pending@,
            next_lookup: self.pending_lookups.next_nonce,
            replies: self.pending_replies.map(),
            next_reply: self.pending_replies.next_nonce,
            registrations: self.registry.entries(),
            registrations_version: self.registry.version,
            severed: self.severed,
            signals: self.signals@,
            released: self.released@.to_set(),
            retired: lane_views(self.retired@),
        }
    }
}

impl<H, S, R, D: FailureDetector> EndpointModel<H, S, R, D> {
    pub open spec fn is_downed(self) -> bool {
        self.coordinator.lifecycle == Lifecycle::Downed
    }

    pub open spec fn fresh_at(
        node: NodeId,
        config: EndpointConfig,
        data_streams: usize,
        fresh: D,
        at: u128,
    ) -> EndpointModel<H, S, R, D> {
        EndpointModel {
            node,
            config,
            fresh,
            outbound: OutboundModel {
                lanes: LanesModel {
                    lanes: Map::empty(),
                    next_generation: 0,
                    capacity: config.outbound_capacity as nat,
                    data_streams: data_streams as nat,
                    dials: Seq::empty(),
                },
                refused: Set::empty(),
                dropped_terminated: 0,
            },
            membership: MembershipModel::fresh(node, config.down_watermarks as nat, at),
            coordinator: Coordinator {
                lifecycle: Lifecycle::Unformed,
                join_in_flight: false,
                pinned: None,
            },
            liveness: Map::empty(),
            reachability: ReachabilityModel::fresh(node),
            watchers: Seq::empty(),
            wire_watches: Map::empty(),
            lookups: Seq::empty(),
            next_lookup: 0,
            replies: Map::empty(),
            next_reply: 0,
            registrations: Seq::empty(),
            registrations_version: 0,
            severed: 0,
            signals: Seq::empty(),
            released: Set::empty(),
            retired: Seq::empty(),
        }
    }

    pub open spec fn sent(self, peer: NodeId, frame: FrameModel) -> (
        EndpointModel<H, S, R, D>,
        Result<(), LaneError>,
    ) {
        let (outbound, r) = self.outbound.sent(self.membership, self.is_downed(), peer, frame);
        (EndpointModel { outbound, ..self }, r)
    }

    pub open spec fn sent_each(self, peer: NodeId, frames: Seq<FrameModel>) -> EndpointModel<
        H,
        S,
        R,
        D,
    > {
        EndpointModel {
            outbound: self.outbound.sent_each(self.membership, self.is_downed(), peer, frames),
            ..self
        }
    }

    /// A batch sent to every Up member whose lane is among the wanted ones.
    pub open spec fn fanned_out(self, frames: Seq<FrameModel>, towards: Towards) -> EndpointModel<
        H,
        S,
        R,
        D,
    > {
        EndpointModel {
            outbound: self.outbound.fanned_out(
                self.membership,
                self.is_downed(),
                self.membership.up_peers(),
                frames,
                towards,
            ),
            ..self
        }
    }

    /// The members as gossip.
    pub open spec fn gossip(self) -> Seq<FrameModel> {
        gossip_frames(
            members_of(self.membership.members),
            members_per_frame(self.config.max_frame_size),
        )
    }

    /// The members and watermarks, which a connection being set up carries.
    pub open spec fn handshake_gossip(self) -> Seq<FrameModel> {
        gossip_frames(
            self.membership.handshake_snapshot(),
            members_per_frame(self.config.max_frame_size),
        )
    }

    /// The statements between members, which a connection being set up carries.
    pub open spec fn statements(self) -> Seq<FrameModel> {
        reachability_frames(
            self.reachability.snapshot(self.membership.up_nodes()),
            statements_per_frame(self.config.max_frame_size),
        )
    }

    pub open spec fn pushed_gossip(self) -> EndpointModel<H, S, R, D> {
        if self.is_downed() {
            self
        } else {
            self.fanned_out(self.gossip(), Towards::Connected)
        }
    }

    pub open spec fn pushed_statements(self, records: Seq<WireReachability>) -> EndpointModel<
        H,
        S,
        R,
        D,
    > {
        if records.len() == 0 || self.is_downed() {
            self
        } else {
            self.fanned_out(
                reachability_frames(records, statements_per_frame(self.config.max_frame_size)),
                Towards::NotDisconnected,
            )
        }
    }

    /// The watchers told of every actor they watch at such a key.
    pub open spec fn told(self, which: spec_fn((WatchKey, H)) -> bool) -> EndpointModel<H, S, R, D> {
        EndpointModel {
            watchers: self.watchers.filter(is_not(which)),
            signals: self.signals + signals(self.watchers.filter(which)),
            ..self
        }
    }

    /// Everything held of the incarnations a fence covers let go: their lane is retired, what was
    /// asked of them fails, their actors' watchers are told, and their own watches are released. An
    /// unbound lane stays, since it may already serve the successor.
    pub open spec fn flushed(self, fence: NodeId) -> EndpointModel<H, S, R, D> {
        let told = self.told(is_fenced(fence));
        let fenced = self.outbound.lanes.is_fenced(fence);
        EndpointModel {
            outbound: if fenced {
                OutboundModel {
                    lanes: self.outbound.lanes.without_lane(fence.addr),
                    ..self.outbound
                }
            } else {
                self.outbound
            },
            retired: if fenced {
                self.retired.push(self.outbound.lanes.lanes[fence.addr])
            } else {
                self.retired
            },
            reachability: self.reachability.pruned(fence),
            lookups: self.lookups.filter(is_lookup_beyond(fence)),
            replies: replies_where(self.replies, is_asked_beyond(fence)),
            wire_watches: Map::new(
                |k: WireWatchKey| self.wire_watches.dom().contains(k) && !fence.fences(k.peer),
                |k: WireWatchKey| self.wire_watches[k],
            ),
            released: self.released.union(registered_under(self.wire_watches, fence)),
            liveness: Map::new(
                |n: NodeId| self.liveness.dom().contains(n) && !fence.fences(n),
                |n: NodeId| self.liveness[n],
            ),
            ..told
        }
    }

    pub open spec fn flushed_all(self, fences: Seq<NodeId>) -> EndpointModel<H, S, R, D>
        decreases fences.len(),
    {
        if fences.len() == 0 {
            self
        } else {
            self.flushed_all(fences.drop_last()).flushed(fences.last())
        }
    }

    /// The death of an incarnation, if it is news: marked Down, everything held of it let go, and
    /// gossiped if it was a member.
    pub open spec fn dead(self, peer: NodeId, at: u128) -> EndpointModel<H, S, R, D> {
        let marked = EndpointModel { membership: self.membership.downed(peer, at), ..self };
        if self.membership.is_up(peer) {
            marked.flushed(peer).pushed_gossip()
        } else if self.membership.raises(peer) {
            marked.flushed(peer)
        } else {
            marked
        }
    }

    pub open spec fn dead_all(self, peers: Seq<NodeId>, at: u128) -> EndpointModel<H, S, R, D>
        decreases peers.len(),
    {
        if peers.len() == 0 {
            self
        } else {
            self.dead_all(peers.drop_last(), at).dead(peers.last(), at)
        }
    }

    pub open spec fn armed(self, peer: NodeId, at: u128) -> EndpointModel<H, S, R, D> {
        EndpointModel {
            liveness: if self.liveness.dom().contains(peer) {
                self.liveness
            } else {
                self.liveness.insert(
                    peer,
                    PeerLiveness { detector: self.fresh.heard(at), holders: 0, deliveries: 0 },
                )
            },
            ..self
        }
    }

    pub open spec fn armed_all(self, peers: Seq<NodeId>, at: u128) -> EndpointModel<H, S, R, D>
        decreases peers.len(),
    {
        if peers.len() == 0 {
            self
        } else {
            self.armed_all(peers.drop_last(), at).armed(peers.last(), at)
        }
    }

    /// This node marked Down and every connection severed.
    pub open spec fn severed_down(self, at: u128) -> EndpointModel<H, S, R, D> {
        EndpointModel {
            membership: self.membership.downed(self.node, at),
            severed: next_severance(self.severed),
            ..self
        }
    }

    /// The end of this node, once.
    pub open spec fn ended(self, at: u128) -> EndpointModel<H, S, R, D> {
        if self.is_downed() {
            self
        } else {
            EndpointModel { coordinator: self.coordinator.downed(), ..self }.severed_down(at)
        }
    }

    /// Gossip merged, and its consequences.
    pub open spec fn gossiped(self, members: Seq<Member>, at: u128) -> EndpointModel<H, S, R, D> {
        let merging = Merging::start(self.membership).with_all(members, at);
        let merge = merging.merge;
        let merged = EndpointModel { membership: merging.membership, ..self };
        if merge.self_down {
            merged.flushed_all(merge.to_flush).ended(at)
        } else {
            let settled = merged.armed_all(merge.new_up, at).dead_all(
                merge.to_down,
                at,
            ).flushed_all(merge.to_flush.filter(is_not_among(merge.to_down)));
            if merge.new_up.len() > 0 || merge.to_down.len() > 0 {
                settled.pushed_gossip()
            } else {
                settled
            }
        }
    }

    pub open spec fn is_available(self, peer: NodeId, at: u128) -> bool {
        self.liveness.dom().contains(peer) ==> self.liveness[peer].detector.available(at)
    }

    /// This node's links to the peers observed.
    pub open spec fn observed(self, peers: Seq<NodeId>, at: u128) -> EndpointModel<H, S, R, D>
        decreases peers.len(),
    {
        if peers.len() == 0 {
            self
        } else {
            let before = self.observed(peers.drop_last(), at);
            EndpointModel {
                reachability: before.reachability.observed(
                    peers.last(),
                    before.is_available(peers.last(), at),
                ),
                ..before
            }
        }
    }

    /// One membership round up to the downing decision: gossip, the links observed, the parked
    /// statements admitted, and what is news pushed.
    pub open spec fn gossiped_and_observed(self, at: u128) -> EndpointModel<H, S, R, D> {
        let seen = self.fanned_out(self.gossip(), Towards::NotDisconnected).observed(
            self.membership.up_peers(),
            at,
        );
        let up = self.membership.up_nodes();
        let promoted = seen.reachability.promoted(up);
        EndpointModel {
            reachability: ReachabilityModel { forward: Map::empty(), ..promoted },
            ..seen
        }.pushed_statements(promoted.outbound(up))
    }

    /// The round with the members outside this node's component marked.
    pub open spec fn rounded(self, at: u128) -> EndpointModel<H, S, R, D> {
        let before = self.gossiped_and_observed(at);
        EndpointModel {
            reachability: before.reachability.marked(up_of(before.membership.listed()), at),
            ..before
        }
    }

    /// The verdict carried out; unless it ends this node, old Down entries and idle peers go.
    pub open spec fn settled(self, verdict: DowningModel, at: u128) -> EndpointModel<H, S, R, D> {
        match verdict {
            DowningModel::SelfDown => self.ended(at),
            DowningModel::Members(members) => {
                let downed = self.dead_all(member_nodes(members), at);
                let membership = downed.membership.swept(self.config.down_retention, at);
                EndpointModel {
                    membership,
                    liveness: Map::new(
                        |n: NodeId|
                            downed.liveness.dom().contains(n) && (membership.up_nodes().contains(n)
                                || downed.liveness[n].holders > 0),
                        |n: NodeId| downed.liveness[n],
                    ),
                    ..downed
                }
            },
        }
    }

    /// A lane given up: what was asked of any incarnation at its address fails and the watchers
    /// there are told.
    pub open spec fn given_up(self, addr: SocketAddr) -> EndpointModel<H, S, R, D> {
        EndpointModel {
            outbound: OutboundModel {
                lanes: self.outbound.lanes.without_lane(addr),
                ..self.outbound
            },
            lookups: self.lookups.filter(is_lookup_elsewhere(addr)),
            replies: replies_where(self.replies, is_asked_elsewhere(addr)),
            ..self.told(is_at_addr(addr))
        }
    }
}

impl<H, S, R, D: FailureDetector, F: FailureDetectorFactory<D>> Endpoint<H, S, R, D, F> {
    /// What makes the judges of peers.
    pub open(crate) spec fn spec_detectors(&self) -> F {
        self.detectors
    }

    pub open(crate) spec fn wf(&self) -> bool {
        &&& self.outbound.wf()
        &&& self.membership.wf()
        &&& self.liveness.wf()
        &&& self.reachability.wf()
        &&& self.watchers.wf()
        &&& self.wire_watches.wf()
        &&& self.pending_lookups.wf()
        &&& self.pending_replies.wf()
    }

    /// An endpoint which is no cluster yet and knows only itself.
    pub fn new(
        node: NodeId,
        config: EndpointConfig,
        data_streams: usize,
        detectors: F,
        at: u128,
    ) -> (endpoint: Self)
        ensures
            endpoint.wf(),
            endpoint.spec_detectors() == detectors,
            endpoint@ == EndpointModel::<H, S, R, D>::fresh_at(
                node,
                config,
                data_streams,
                detectors.made(),
                at,
            ),
    {
        let endpoint = Endpoint {
            node,
            config,
            detectors,
            outbound: Outbound::new(config.outbound_capacity, data_streams),
            membership: Membership::new(node, config.down_watermarks, at),
            coordinator: Coordinator::default(),
            liveness: Liveness::new(),
            reachability: Reachability::new(node),
            watchers: WatcherTable::new(),
            wire_watches: WireWatchTable::new(),
            pending_lookups: PendingLookups::new(),
            pending_replies: PendingReplies::new(),
            registry: Registry::new(),
            severed: 0,
            signals: Vec::new(),
            released: Vec::new(),
            retired: Vec::new(),
        };
        assert(endpoint@ =~= EndpointModel::<H, S, R, D>::fresh_at(
            node,
            config,
            data_streams,
            detectors.made(),
            at,
        ));
        endpoint
    }

    /// Where the endpoint stands.
    pub fn lifecycle(&self) -> (lifecycle: Lifecycle)
        ensures
            lifecycle == self@.coordinator.lifecycle,
    {
        self.coordinator.lifecycle
    }

    pub fn formed(&self) -> (r: bool)
        ensures
            r == (self@.coordinator.lifecycle == Lifecycle::Formed),
    {
        self.coordinator.lifecycle == Lifecycle::Formed
    }

    pub fn downed(&self) -> (r: bool)
        ensures
            r == self@.is_downed(),
    {
        self.coordinator.lifecycle == Lifecycle::Downed
    }

    /// Forms a cluster of this node alone.
    pub fn form_cluster(&mut self) -> (r: Result<(), FormError>)
        requires
            old(self).wf(),
        ensures
            final(self).wf(),
            r == old(self)@.coordinator.can_form(),
            final(self)@ == if r is Ok {
                EndpointModel {
                    coordinator: Coordinator {
                        lifecycle: Lifecycle::Formed,
                        ..old(self)@.coordinator
                    },
                    ..old(self)@
                }
            } else {
                old(self)@
            },
    {
        match self.coordinator.form() {
            Ok(_) => Ok(()),
            Err(e) => Err(e),
        }
    }

    /// Enters a join attempt, which no downed node makes.
    pub fn enter_join(&mut self) -> (entered: bool)
        requires
            old(self).wf(),
        ensures
            final(self).wf(),
            entered == !old(self)@.is_downed(),
            final(self)@ == if entered {
                EndpointModel {
                    coordinator: Coordinator { join_in_flight: true, ..old(self)@.coordinator },
                    ..old(self)@
                }
            } else {
                old(self)@
            },
    {
        self.coordinator.enter_join()
    }

    /// Commits a join attempt; one which was refused because this node is dead ends it.
    pub fn finish_join(&mut self, addr: SocketAddr, result: Result<(), ConnectError>, at: u128) -> (r:
        Result<(), ConnectError>)
        requires
            old(self).wf(),
        ensures
            final(self).wf(),
            r == old(self)@.coordinator.finished(addr, result).1,
            ({
                let (coordinator, _, newly_downed) = old(self)@.coordinator.finished(addr, result);
                let committed = EndpointModel { coordinator, ..old(self)@ };
                final(self)@ == if newly_downed {
                    committed.severed_down(at)
                } else {
                    committed
                }
            }),
    {
        let finished = self.coordinator.finish_join(addr, result);
        if finished.newly_downed {
            self.sever_down(at);
        }
        finished.result
    }

    /// Records that a cluster answered a join attempt.
    pub fn pin_cluster(&mut self, addr: SocketAddr)
        requires
            old(self).wf(),
        ensures
            final(self).wf(),
            final(self)@ == if old(self)@.is_downed() {
                old(self)@
            } else {
                EndpointModel {
                    coordinator: Coordinator { pinned: Some(addr), ..old(self)@.coordinator },
                    ..old(self)@
                }
            },
    {
        self.coordinator.pin(addr);
    }

    /// The cluster which may already count this node.
    pub fn pinned_cluster(&self) -> (pinned: Option<SocketAddr>)
        ensures
            pinned == self@.coordinator.pinned,
    {
        self.coordinator.pinned
    }

    /// Releases the pin if discovery no longer resolves it and no attempt runs.
    pub fn release_pin_if_gone(&mut self, universe: &AddrSet) -> (released: Option<SocketAddr>)
        requires
            old(self).wf(),
        ensures
            final(self).wf(),
            released == (if old(self)@.coordinator.is_stale(universe@) {
                old(self)@.coordinator.pinned
            } else {
                None
            }),
            final(self)@ == (if released is Some {
                EndpointModel {
                    coordinator: Coordinator { pinned: None, ..old(self)@.coordinator },
                    ..old(self)@
                }
            } else {
                old(self)@
            }),
    {
        self.coordinator.release_pin_if_gone(universe)
    }

    fn sever_down(&mut self, at: u128)
        requires
            old(self).wf(),
        ensures
            final(self).wf(),
            final(self)@ == old(self)@.severed_down(at),
            final(self).spec_detectors() == old(self).spec_detectors(),
    {
        let _ = self.membership.down(self.node, at);
        self.sever();
    }

    /// Severs every connection; the lanes keep their queues.
    pub fn sever(&mut self)
        requires
            old(self).wf(),
        ensures
            final(self).wf(),
            final(self)@ == (EndpointModel {
                severed: next_severance(old(self)@.severed),
                ..old(self)@
            }),
            final(self).spec_detectors() == old(self).spec_detectors(),
    {
        self.severed = if self.severed == u64::MAX { 0 } else { self.severed + 1 };
    }

    /// Arms the endpoint to drop the next terminated signals it sends.
    pub fn arm_terminated_drop(&mut self, count: u64)
        requires
            old(self).wf(),
        ensures
            final(self).wf(),
            final(self)@ == (EndpointModel {
                outbound: OutboundModel { dropped_terminated: count, ..old(self)@.outbound },
                ..old(self)@
            }),
    {
        self.outbound.dropped_terminated = count;
    }

    /// Ends this node; whether this call did. Only a restarted process rejoins.
    pub fn self_down(&mut self, at: u128) -> (newly: bool)
        requires
            old(self).wf(),
        ensures
            final(self).wf(),
            newly == !old(self)@.is_downed(),
            final(self)@ == old(self)@.ended(at),
            final(self).spec_detectors() == old(self).spec_detectors(),
    {
        if !self.coordinator.down() {
            return false;
        }
        self.sever_down(at);
        true
    }

    /// Queues a frame for a peer.
    pub fn send(&mut self, peer: NodeId, frame: Frame) -> (r: Result<(), LaneError>)
        requires
            old(self).wf(),
        ensures
            final(self).wf(),
            final(self)@ == old(self)@.sent(peer, frame.deep_view()).0,
            r == old(self)@.sent(peer, frame.deep_view()).1,
            final(self).spec_detectors() == old(self).spec_detectors(),
    {
        let downed = self.downed();
        self.outbound.send(&self.membership, downed, peer, frame)
    }

    /// Queues the frames for a peer in order, whatever becomes of each; whether all were taken.
    pub fn send_each(&mut self, peer: NodeId, frames: Vec<Frame>) -> (taken: bool)
        requires
            old(self).wf(),
        ensures
            final(self).wf(),
            final(self)@ == old(self)@.sent_each(peer, frames.deep_view()),
            taken == old(self)@.outbound.takes_each(
                old(self)@.membership,
                old(self)@.is_downed(),
                peer,
                frames.deep_view(),
            ),
            final(self).spec_detectors() == old(self).spec_detectors(),
    {
        let downed = self.downed();
        self.outbound.send_each(&self.membership, downed, peer, frames)
    }

    /// Tracks a peer's liveness, which a connection to it or word of it arms.
    pub fn track_liveness(&mut self, peer: NodeId, at: u128)
        requires
            old(self).wf(),
        ensures
            final(self).wf(),
            final(self)@ == old(self)@.armed(peer, at),
            final(self).spec_detectors() == old(self).spec_detectors(),
    {
        let detector = self.detectors.make();
        self.liveness.track(peer, detector, at);
    }

    /// Stops dialing an address which answered without speaking this protocol.
    pub fn refuse(&mut self, addr: SocketAddr)
        requires
            old(self).wf(),
        ensures
            final(self).wf(),
            final(self)@ == (EndpointModel {
                outbound: OutboundModel {
                    refused: old(self)@.outbound.refused.insert(addr),
                    ..old(self)@.outbound
                },
                ..old(self)@
            }),
    {
        let _ = self.outbound.refused.insert(addr);
    }

    /// Dials an address again: a node of this protocol answered there.
    pub fn unrefuse(&mut self, addr: SocketAddr)
        requires
            old(self).wf(),
        ensures
            final(self).wf(),
            final(self)@ == (EndpointModel {
                outbound: OutboundModel {
                    refused: old(self)@.outbound.refused.remove(addr),
                    ..old(self)@.outbound
                },
                ..old(self)@
            }),
    {
        let _ = self.outbound.refused.remove(addr);
    }

    /// The gossip frames of the members, in chunks which respect the frame size.
    pub fn snapshot_frames(&self, members: Vec<WireMember>) -> (frames: Vec<Frame>)
        ensures
            frames.deep_view() == gossip_frames(
                members@,
                members_per_frame(self@.config.max_frame_size),
            ),
    {
        membership::snapshot_frames(members, self.config.max_frame_size)
    }

    /// The frames of the statements a connection being set up carries.
    pub fn reachability_snapshot_frames(&self) -> (frames: Vec<Frame>)
        requires
            self.wf(),
        ensures
            frames.deep_view() == self@.statements(),
    {
        let up = self.membership.up_nodes();
        reachability::snapshot_frames(
            self.reachability.snapshot(up.as_slice()),
            self.config.max_frame_size,
        )
    }

    /// The frames of the members and watermarks a connection being set up carries.
    pub fn handshake_frames(&self) -> (frames: Vec<Frame>)
        requires
            self.wf(),
        ensures
            frames.deep_view() == self@.handshake_gossip(),
    {
        self.snapshot_frames(self.membership.handshake_snapshot())
    }

    /// Gossips the members to the Up members whose lane is among the wanted ones.
    pub(crate) fn fan_out_gossip(&mut self, towards: Towards)
        requires
            old(self).wf(),
        ensures
            final(self).wf(),
            final(self)@ == old(self)@.fanned_out(old(self)@.gossip(), towards),
            final(self).spec_detectors() == old(self).spec_detectors(),
    {
        let downed = self.downed();
        let listed = self.membership.snapshot();
        let peers = self.membership.up_peers();
        let max_frame_size: usize = self.config.max_frame_size;
        self.outbound.fan_out_members(
            &self.membership,
            downed,
            &peers,
            &listed,
            max_frame_size,
            towards,
        );
    }

    /// Gossips to every Up member, a disconnected one included: a departure is sent once.
    pub fn announce(&mut self)
        requires
            old(self).wf(),
        ensures
            final(self).wf(),
            final(self)@ == old(self)@.fanned_out(old(self)@.gossip(), Towards::Every),
    {
        self.fan_out_gossip(Towards::Every);
    }

    /// Gossips to every Up member whose lane is live; the periodic round covers everyone else.
    pub fn push_gossip(&mut self)
        requires
            old(self).wf(),
        ensures
            final(self).wf(),
            final(self)@ == old(self)@.pushed_gossip(),
            final(self).spec_detectors() == old(self).spec_detectors(),
    {
        if !self.downed() {
            self.fan_out_gossip(Towards::Connected);
        }
    }

    /// Sends the statements to the Up members but those whose lane is disconnected, whose uncounted
    /// queues would otherwise grow.
    pub fn push_reachability(&mut self, observations: Vec<WireReachability>)
        requires
            old(self).wf(),
        ensures
            final(self).wf(),
            final(self)@ == old(self)@.pushed_statements(observations@),
            final(self).spec_detectors() == old(self).spec_detectors(),
    {
        if observations.len() == 0 || self.downed() {
            return ;
        }
        let downed = self.downed();
        let peers = self.membership.up_peers();
        let max_frame_size: usize = self.config.max_frame_size;
        self.outbound.fan_out_statements(
            &self.membership,
            downed,
            &peers,
            &observations,
            max_frame_size,
            Towards::NotDisconnected,
        );
    }

    /// Merges the statements of a peer.
    pub fn merge_reachability(&mut self, observations: &[WireReachability])
        requires
            old(self).wf(),
        ensures
            final(self).wf(),
            final(self)@ == (EndpointModel {
                reachability: old(self)@.reachability.merged(
                    observations@,
                    old(self)@.membership.up_nodes(),
                ),
                ..old(self)@
            }),
    {
        let up = self.membership.up_nodes();
        self.reachability.merge(observations, up.as_slice());
    }

    /// Whether the lane of an address is connected, none if there is no lane.
    pub fn lane_connected(&self, addr: SocketAddr) -> (connected: Option<bool>)
        requires
            self.wf(),
        ensures
            connected == self@.outbound.lanes.connected(addr),
    {
        self.outbound.lanes.connected(addr)
    }

    /// Whether every lane is drained, a still dialing one included.
    pub fn outbound_drained(&self) -> (r: bool)
        requires
            self.wf(),
        ensures
            r == self@.outbound.lanes.drained(),
    {
        self.outbound.lanes.all_drained()
    }

    pub fn mark_lane_disconnected(&mut self, addr: SocketAddr, lane_id: Generation)
        requires
            old(self).wf(),
        ensures
            final(self).wf(),
            final(self)@ == (EndpointModel {
                outbound: OutboundModel {
                    lanes: old(self)@.outbound.lanes.disconnected(addr, lane_id),
                    ..old(self)@.outbound
                },
                ..old(self)@
            }),
    {
        self.outbound.lanes.mark_disconnected(addr, lane_id);
    }

    /// Binds a lane to the incarnation which answered, or removes it if that one is dead.
    pub fn bind_lane(&mut self, addr: SocketAddr, lane_id: Generation, peer: NodeId)
        requires
            old(self).wf(),
        ensures
            final(self).wf(),
            final(self)@ == (EndpointModel {
                outbound: OutboundModel {
                    lanes: old(self)@.outbound.lanes.bound(
                        addr,
                        lane_id,
                        peer,
                        old(self)@.membership.is_down(peer),
                    ),
                    ..old(self)@.outbound
                },
                ..old(self)@
            }),
    {
        let down = self.membership.is_down(peer);
        self.outbound.lanes.bind(addr, lane_id, peer, down);
    }

    pub fn is_lane_open(&self, addr: SocketAddr, lane_id: Generation) -> (r: bool)
        requires
            self.wf(),
        ensures
            r == self@.outbound.lanes.has_lane(addr, lane_id),
    {
        self.outbound.lanes.is_open(addr, lane_id)
    }
}

} // verus!
