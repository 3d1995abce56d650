//! The parts of an endpoint, each changed by its own operations alone, and what is left to be done
//! outside.

use vstd::prelude::*;

use crate::addr::SocketAddr;
use crate::cluster::discovery::PendingLookups;
use crate::cluster::endpoint::{lane_views, Endpoint, EndpointModel};
use crate::cluster::failure::{FailureDetector, FailureDetectorFactory, Liveness};
use crate::cluster::frame::Frame;
use crate::cluster::lanes::{next_frame, without_next, DialRequest, Generation, Lane, Lanes,
    LanesModel};
use crate::cluster::membership::Membership;
use crate::cluster::outbound::OutboundModel;
use crate::cluster::reachability::Reachability;
use crate::cluster::receptionist::WireRegistrationModel;
use crate::cluster::registry::{next_version, Registry};
use crate::cluster::reply::{is_for_another, replies_where, PendingReplies};
use crate::cluster::watch::RegisteredWatch;
use crate::ids::{ActorId, NodeId};
use crate::watch::Watcher;

verus! {

/// What an endpoint leaves to be done outside.
#[derive(Debug)]
pub struct Effects<H> {
    /// The terminated signals owed to local watchers.
    pub signals: Vec<(ActorId, Watcher<H>)>,
    /// The local watchers of dead nodes, to be deregistered from the actors they watch.
    pub released: Vec<RegisteredWatch>,
    /// The lanes of dead nodes, whose writers have yet to empty them.
    pub retired: Vec<Lane>,
    /// The connections to be dialed.
    pub dials: Vec<DialRequest>,
}

impl<H> Default for Effects<H> {
    fn default() -> (effects: Self)
        ensures
            effects.signals@.len() == 0,
            effects.released@.len() == 0,
            effects.retired@.len() == 0,
            effects.dials@.len() == 0,
    {
        Effects {
            signals: Vec::new(),
            released: Vec::new(),
            retired: Vec::new(),
            dials: Vec::new(),
        }
    }
}

impl<H, S, R, D: FailureDetector> EndpointModel<H, S, R, D> {
    /// The endpoint with nothing left to be done outside.
    pub open spec fn relieved(self) -> EndpointModel<H, S, R, D> {
        EndpointModel {
            signals: Seq::empty(),
            released: Set::empty(),
            retired: Seq::empty(),
            outbound: OutboundModel {
                lanes: LanesModel { dials: Seq::empty(), ..self.outbound.lanes },
                ..self.outbound
            },
            ..self
        }
    }

    /// The endpoint without what it kept for an actor which has terminated.
    pub open spec fn evicted(self, actor: ActorId) -> EndpointModel<H, S, R, D> {
        let kept = self.registrations.filter(|r: WireRegistrationModel| r.id != actor);
        EndpointModel {
            registrations: kept,
            registrations_version: if kept == self.registrations {
                self.registrations_version
            } else {
                next_version(self.registrations_version)
            },
            replies: replies_where(self.replies, is_for_another(actor)),
            ..self
        }
    }
}

impl<H, S, R, D: FailureDetector, F: FailureDetectorFactory<D>> Endpoint<H, S, R, D, F> {
    /// This node.
    pub fn node(&self) -> (node: NodeId)
        ensures
            node == self@.node,
    {
        self.node
    }

    /// How often every connection was to be severed.
    pub fn severed(&self) -> (severed: u64)
        ensures
            severed == self@.severed,
    {
        self.severed
    }

    pub fn membership(&self) -> (membership: &Membership)
        requires
            self.wf(),
        ensures
            membership.wf(),
            membership@ == self@.membership,
    {
        &self.membership
    }

    pub fn membership_mut(&mut self) -> (membership: &mut Membership)
        requires
            old(self).wf(),
        ensures
            membership.wf(),
            membership@ == old(self)@.membership,
            final(membership).wf() ==> final(self).wf(),
            final(self)@ == (EndpointModel { membership: final(membership)@, ..old(self)@ }),
            final(self).spec_detectors() == old(self).spec_detectors(),
    {
        &mut self.membership
    }

    pub fn liveness_mut(&mut self) -> (liveness: &mut Liveness<D>)
        requires
            old(self).wf(),
        ensures
            liveness.wf(),
            liveness.map() == old(self)@.liveness,
            final(liveness).wf() ==> final(self).wf(),
            final(self)@ == (EndpointModel { liveness: final(liveness).map(), ..old(self)@ }),
            final(self).spec_detectors() == old(self).spec_detectors(),
    {
        &mut self.liveness
    }

    pub fn reachability_mut(&mut self) -> (reachability: &mut Reachability)
        requires
            old(self).wf(),
        ensures
            reachability.wf(),
            reachability@ == old(self)@.reachability,
            final(reachability).wf() ==> final(self).wf(),
            final(self)@ == (EndpointModel { reachability: final(reachability)@, ..old(self)@ }),
            final(self).spec_detectors() == old(self).spec_detectors(),
    {
        &mut self.reachability
    }

    pub fn pending_replies_mut(&mut self) -> (pending: &mut PendingReplies<R>)
        requires
            old(self).wf(),
        ensures
            pending.wf(),
            pending.map() == old(self)@.replies,
            pending.next_nonce == old(self)@.next_reply,
            final(pending).wf() ==> final(self).wf(),
            final(self)@ == (EndpointModel {
                replies: final(pending).map(),
                next_reply: final(pending).next_nonce,
                ..old(self)@
            }),
            final(self).spec_detectors() == old(self).spec_detectors(),
    {
        &mut self.pending_replies
    }

    pub fn pending_lookups_mut(&mut self) -> (pending: &mut PendingLookups<S>)
        requires
            old(self).wf(),
        ensures
            pending.wf(),
            pending.pending@ == old(self)@.lookups,
            pending.next_nonce == old(self)@.next_lookup,
            final(pending).wf() ==> final(self).wf(),
            final(self)@ == (EndpointModel {
                lookups: final(pending).pending@,
                next_lookup: final(pending).next_nonce,
                ..old(self)@
            }),
            final(self).spec_detectors() == old(self).spec_detectors(),
    {
        &mut self.pending_lookups
    }

    /// The actors of this node which are registered for discovery.
    pub fn registry(&self) -> (registry: &Registry)
        ensures
            registry.entries() == self@.registrations,
            registry.version == self@.registrations_version,
    {
        &self.registry
    }

    pub fn registry_mut(&mut self) -> (registry: &mut Registry)
        requires
            old(self).wf(),
        ensures
            registry.entries() == old(self)@.registrations,
            registry.version == old(self)@.registrations_version,
            final(self).wf(),
            final(self)@ == (EndpointModel {
                registrations: final(registry).entries(),
                registrations_version: final(registry).version,
                ..old(self)@
            }),
            final(self).spec_detectors() == old(self).spec_detectors(),
    {
        &mut self.registry
    }

    /// The lanes to the other nodes.
    pub fn lanes(&self) -> (lanes: &Lanes)
        requires
            self.wf(),
        ensures
            lanes.wf(),
            lanes@ == self@.outbound.lanes,
    {
        &self.outbound.lanes
    }

    /// The next frame for one writer of the lane, which frees its room: none names the control
    /// queue, an index a data queue.
    pub fn dequeue(&mut self, addr: SocketAddr, lane_id: Generation, stream: Option<usize>) -> (frame:
        Option<Frame>)
        requires
            old(self).wf(),
        ensures
            final(self).wf(),
            ({
                let lanes = old(self)@.outbound.lanes;
                let lane = lanes.lanes[addr];
                match next_frame(lane, stream) {
                    Some(next) if lanes.has_lane(addr, lane_id) => {
                        &&& frame matches Some(f) && f.deep_view() == next
                        &&& final(self)@ == (EndpointModel {
                            outbound: OutboundModel {
                                lanes: lanes.with_lane(addr, without_next(lane, stream)),
                                ..old(self)@.outbound
                            },
                            ..old(self)@
                        })
                    },
                    _ => frame is None && final(self)@ == old(self)@,
                }
            }),
            final(self).spec_detectors() == old(self).spec_detectors(),
    {
        self.outbound.lanes.dequeue(addr, lane_id, stream)
    }

    /// Hands out what is left to be done outside.
    pub fn take_effects(&mut self) -> (effects: Effects<H>)
        requires
            old(self).wf(),
        ensures
            final(self).wf(),
            final(self)@ == old(self)@.relieved(),
            final(self).spec_detectors() == old(self).spec_detectors(),
            effects.signals@ == old(self)@.signals,
            effects.released@.to_set() == old(self)@.released,
            lane_views(effects.retired@) == old(self)@.retired,
            effects.dials@ == old(self)@.outbound.lanes.dials,
    {
        let mut effects: Effects<H> = Effects::default();
        std::mem::swap(&mut self.signals, &mut effects.signals);
        std::mem::swap(&mut self.released, &mut effects.released);
        std::mem::swap(&mut self.retired, &mut effects.retired);
        std::mem::swap(&mut self.outbound.lanes.dials, &mut effects.dials);
        assert(self@.released =~= Set::empty());
        assert(self@.signals =~= Seq::empty());
        assert(self@.retired =~= Seq::empty());
        assert(self@.outbound.lanes.dials =~= Seq::empty());
        assert(self@ =~= old(self)@.relieved());
        effects
    }

    /// Drops what this node keeps for an actor of its own which has terminated: its registrations,
    /// and the replies it awaits.
    pub fn evict(&mut self, actor: ActorId)
        requires
            old(self).wf(),
        ensures
            final(self).wf(),
            final(self)@ == old(self)@.evicted(actor),
            final(self).spec_detectors() == old(self).spec_detectors(),
    {
        self.registry.evict(actor);
        self.pending_replies.fail_recipient(actor);
        assert(self@ =~= old(self)@.evicted(actor));
    }
}

/// An actor which ends takes its registrations and the replies it awaits along, and no others; the
/// version moves if it had any registered.
pub proof fn an_ended_actor_is_forgotten<H, S, R, D: FailureDetector>(
    endpoint: EndpointModel<H, S, R, D>,
    actor: ActorId,
    registration: WireRegistrationModel,
    nonce: crate::ids::Nonce,
)
    ensures
        ({
            let after = endpoint.evicted(actor);
            let had = exists|i: int|
                0 <= i < endpoint.registrations.len() && (#[trigger] endpoint.registrations[i]).id
                    == actor;
            &&& after.registrations.contains(registration) <==> endpoint.registrations.contains(
                registration,
            ) && registration.id != actor
            &&& !had ==> after.registrations == endpoint.registrations
                && after.registrations_version == endpoint.registrations_version
            &&& had && endpoint.registrations_version < u64::MAX ==> after.registrations_version
                == endpoint.registrations_version + 1
            &&& after.replies.dom().contains(nonce) <==> endpoint.replies.dom().contains(nonce)
                && endpoint.replies[nonce].recipient != Some(actor)
        }),
{
    let keep = |r: WireRegistrationModel| r.id != actor;
    let kept = endpoint.registrations.filter(keep);
    crate::seqs::lemma_filter_contains(endpoint.registrations, keep, registration);
    if exists|i: int|
        0 <= i < endpoint.registrations.len() && (#[trigger] endpoint.registrations[i]).id
            == actor {
        let i = choose|i: int|
            0 <= i < endpoint.registrations.len() && (#[trigger] endpoint.registrations[i]).id
                == actor;
        let gone = endpoint.registrations[i];
        assert(endpoint.registrations.contains(gone));
        crate::seqs::lemma_filter_contains(endpoint.registrations, keep, gone);
        assert(kept != endpoint.registrations);
    } else {
        crate::seqs::lemma_filter_all(endpoint.registrations, keep);
    }
}

/// What is handed out is handed out once: the effects are gone from the endpoint, and nothing else is.
pub proof fn effects_are_handed_out_once<H, S, R, D: FailureDetector>(
    endpoint: EndpointModel<H, S, R, D>,
)
    ensures
        ({
            let after = endpoint.relieved();
            &&& after.signals.len() == 0 && after.retired.len() == 0
                && after.outbound.lanes.dials.len() == 0
            &&& after.released == Set::<RegisteredWatch>::empty()
            &&& after.outbound.lanes.lanes == endpoint.outbound.lanes.lanes
                && after.outbound.refused == endpoint.outbound.refused
            &&& after.membership == endpoint.membership && after.watchers == endpoint.watchers
                && after.replies == endpoint.replies && after.lookups == endpoint.lookups
                && after.liveness == endpoint.liveness && after.reachability
                == endpoint.reachability && after.wire_watches == endpoint.wire_watches
            &&& after.relieved() == after
        }),
{
}

} // verus!
