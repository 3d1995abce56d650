//! Leaving the cluster: the departure is gossiped, the outbound queues are given time to drain, and
//! every connection is severed.

use vstd::prelude::*;

use crate::cluster::endpoint::{Endpoint, EndpointModel};
use crate::cluster::failure::{FailureDetector, FailureDetectorFactory};
use crate::cluster::outbound::Towards;

verus! {

/// How often a drain is looked at: five milliseconds.
pub const DRAIN_POLL: u128 = 5_000_000;

/// The cluster cannot be left.
#[derive(Debug, Clone, PartialEq, Eq)]
pub enum LeaveError<E> {
    /// The remoting endpoint has not been started.
    EndpointNotStarted,
    /// The actor system did not terminate cleanly; the departure was announced anyway.
    Terminated(E),
}

/// Two consecutive empty observations end a drain: one only proves a writer dequeued the last frame.
#[derive(Debug, Clone, Copy, PartialEq, Eq, Structural)]
pub struct Drain {
    pub was_drained: bool,
}

impl Drain {
    pub fn new() -> (drain: Self)
        ensures
            drain == (Drain { was_drained: false }),
    {
        Drain { was_drained: false }
    }

    /// Takes one observation; whether the drain is over.
    pub fn observe(&mut self, drained: bool) -> (over: bool)
        ensures
            over == (drained && old(self).was_drained),
            !over ==> final(self).was_drained == drained,
            over ==> *final(self) == *old(self),
    {
        if drained && self.was_drained {
            return true;
        }
        self.was_drained = drained;
        false
    }
}

impl<H, S, R, D: FailureDetector> EndpointModel<H, S, R, D> {
    /// This node marked Down in its own list and gossiped so to every member.
    pub open spec fn announced(self, at: u128) -> EndpointModel<H, S, R, D> {
        let marked = EndpointModel { membership: self.membership.downed(self.node, at), ..self };
        marked.fanned_out(marked.gossip(), Towards::Every)
    }
}

impl<H, S, R, D: FailureDetector, F: FailureDetectorFactory<D>> Endpoint<H, S, R, D, F> {
    /// Announces the departure; whether there is anything to drain and to end, which is not so once
    /// this node is downed. The announcement comes first, since a downed node sends nothing.
    pub fn begin_leave(&mut self, at: u128) -> (leaving: bool)
        requires
            old(self).wf(),
        ensures
            final(self).wf(),
            leaving == !old(self)@.is_downed(),
            final(self)@ == if leaving {
                old(self)@.announced(at)
            } else {
                old(self)@
            },
    {
        if self.downed() {
            return false;
        }
        let _ = self.membership.down(self.node, at);
        self.announce();
        true
    }

    /// Ends this node, its departure announced; whether this call did.
    pub fn leave_down(&mut self, at: u128) -> (newly: bool)
        requires
            old(self).wf(),
        ensures
            final(self).wf(),
            newly == !old(self)@.is_downed(),
            final(self)@ == old(self)@.ended(at),
    {
        self.self_down(at)
    }
}

/// What leaving with an actor system amounts to: the departure comes first, and a system which did
/// not terminate cleanly is reported after it.
pub fn leave_outcome<E>(left: Result<(), LeaveError<E>>, terminated: Result<(), E>) -> (r: Result<
    (),
    LeaveError<E>,
>)
    ensures
        left is Err ==> r == left,
        left is Ok ==> r == match terminated {
            Ok(_) => Ok::<(), LeaveError<E>>(()),
            Err(error) => Err::<(), LeaveError<E>>(LeaveError::Terminated(error)),
        },
{
    match left {
        Err(error) => Err(error),
        Ok(_) => match terminated {
            Ok(_) => Ok(()),
            Err(error) => Err(LeaveError::Terminated(error)),
        },
    }
}

/// A node which has left is downed: it sends nothing, forms nothing and admits nobody.
pub proof fn leaving_is_final<H, S, R, D: FailureDetector>(
    endpoint: EndpointModel<H, S, R, D>,
    at: u128,
)
    ensures
        endpoint.ended(at).is_downed(),
        endpoint.ended(at).ended(at) == endpoint.ended(at),
        endpoint.ended(at).coordinator.can_form() is Err,
{
}

/// The departure reaches every member's queue which takes it: it is sent before the node goes
/// silent.
pub proof fn a_departure_precedes_the_silence<H, S, R, D: FailureDetector>(
    endpoint: EndpointModel<H, S, R, D>,
    at: u128,
)
    requires
        !endpoint.is_downed(),
    ensures
        endpoint.announced(at).outbound == endpoint.outbound.fanned_out(
            endpoint.membership.downed(endpoint.node, at),
            false,
            endpoint.membership.downed(endpoint.node, at).up_peers(),
            endpoint.announced(at).gossip(),
            Towards::Every,
        ),
        endpoint.announced(at).ended(at).outbound == endpoint.announced(at).outbound,
{
}

/// A node which leaves tells every member which can be reached: the whole list, with its own entry
/// Down, is queued for it behind what waits already.
pub proof fn a_departure_is_told_to_every_member<H, S, R, D: FailureDetector>(
    endpoint: EndpointModel<H, S, R, D>,
    at: u128,
    to: int,
)
    requires
        !endpoint.is_downed(),
        ({
            let marked = endpoint.membership.downed(endpoint.node, at);
            let peers = marked.up_peers();
            &&& 0 <= to < peers.len()
            &&& forall|i: int| 0 <= i < peers.len() && i != to ==> (#[trigger] peers[i]).addr
                != peers[to].addr
            &&& crate::cluster::outbound::is_open_towards(endpoint.outbound, marked, peers[to])
        }),
    ensures
        ({
            let marked = endpoint.membership.downed(endpoint.node, at);
            let addr = marked.up_peers()[to].addr;
            let frames = crate::cluster::membership::gossip_frames(
                crate::cluster::membership::members_of(marked.members),
                crate::cluster::membership::members_per_frame(endpoint.config.max_frame_size),
            );
            let after = endpoint.announced(at).outbound;
            &&& crate::cluster::outbound::control_towards(after, addr)
                == crate::cluster::outbound::control_towards(endpoint.outbound, addr) + frames
            &&& crate::cluster::chunks::joined(crate::cluster::membership::gossiped(frames))
                == crate::cluster::membership::members_of(marked.members)
        }),
{
    let marked = endpoint.membership.downed(endpoint.node, at);
    let members = crate::cluster::membership::members_of(marked.members);
    let frames = crate::cluster::membership::gossip_frames(
        members,
        crate::cluster::membership::members_per_frame(endpoint.config.max_frame_size),
    );
    crate::cluster::membership::snapshot_frames_carry_the_snapshot(
        members,
        endpoint.config.max_frame_size,
    );
    crate::cluster::outbound::a_batch_reaches_every_peer(
        endpoint.outbound,
        marked,
        marked.up_peers(),
        frames,
        Towards::Every,
        to,
    );
}

/// What ends a node: it is downed for good, its pin goes, its own entry is marked, and its
/// connections are severed; a second end changes nothing.
pub proof fn an_end_downs_the_node<H, S, R, D: FailureDetector>(
    endpoint: EndpointModel<H, S, R, D>,
    at: u128,
)
    requires
        endpoint.severed < u64::MAX,
    ensures
        ({
            let after = endpoint.ended(at);
            &&& endpoint.is_downed() ==> after == endpoint
            &&& !endpoint.is_downed() ==> {
                &&& after.coordinator.lifecycle == crate::cluster::coordinator::Lifecycle::Downed
                &&& after.coordinator.pinned is None
                &&& after.coordinator.join_in_flight == endpoint.coordinator.join_in_flight
                &&& after.membership == endpoint.membership.downed(endpoint.node, at)
                &&& after.severed == endpoint.severed + 1
                &&& after.outbound == endpoint.outbound && after.watchers == endpoint.watchers
                    && after.signals == endpoint.signals
            }
        }),
{
}

/// A drain is over with the second observation in a row which finds it empty.
pub proof fn two_empty_observations_end_a_drain(drain: &mut Drain, drained: bool, over: bool)
    requires
        call_ensures(Drain::observe, (drain, drained), over),
    ensures
        over <==> drained && old(drain).was_drained,
        final(drain).was_drained == drained,
{
}

} // verus!
