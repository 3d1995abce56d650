//! The life of one outbound lane: dialed until it connects or is given up, set up on every
//! connection, served until the connection ends, and dialed again.

use vstd::prelude::*;

use crate::addr::SocketAddr;
use crate::cluster::connect::ConnectError;
use crate::cluster::discovery::lookup_frames;
use crate::cluster::endpoint::{Endpoint, EndpointModel};
use crate::cluster::failure::{FailureDetector, FailureDetectorFactory};
use crate::cluster::frame::{Frame, FrameModel, RefusalReason};
use crate::cluster::lanes::{DialRequest, Generation, Lane};
use crate::cluster::outbound::OutboundModel;
use crate::cluster::reply::{untagged, ReplyTag};
use crate::cluster::rounds::{frames_of_watches, watch_frames};
use crate::cluster::transport::PeerIdentity;
use crate::cluster::watch::watch_pairs;
use crate::ids::{ActorId, NodeId};
use crate::seqs::{age, elapsed};
use crate::wire::Wire;

verus! {

/// Why the writers of a lane stopped.
#[derive(Debug, Clone, Copy, PartialEq, Eq, Structural)]
pub enum WriterEnd {
    LaneClosed,
    ConnectionLost,
}

/// What a lane's task does next.
#[derive(Debug, Clone, Copy, PartialEq, Eq, Structural)]
pub enum PeerAction {
    /// Dial the address.
    Dial,
    /// Read from the peer and write the lane's queues to it until either ends.
    Serve(NodeId),
    /// Wait so many nanoseconds, then ask again.
    Wait(u128),
    /// Give the lane up and end.
    Stop,
}

/// The task of one lane.
#[derive(Debug, Clone, Copy, PartialEq, Eq, Structural)]
pub struct PeerTask {
    pub addr: SocketAddr,
    pub lane_id: Generation,
    /// The attempts since the peer last proved to be there.
    pub attempts: u32,
    /// It has been connected before, so lookups may have been lost with a connection.
    pub reconnected: bool,
    pub connected_at: u128,
}

pub open spec fn one_more_attempt(attempts: u32) -> u32 {
    if attempts == u32::MAX {
        attempts
    } else {
        (attempts + 1) as u32
    }
}

impl<H, S, R, D: FailureDetector> EndpointModel<H, S, R, D> {
    /// What a fresh connection carries: the members and watermarks, which the heartbeat omits, the
    /// statements, the watches and, on a reconnect, the lookups, which may have been lost.
    pub open spec fn set_up(self, peer: NodeId, reconnected: bool) -> EndpointModel<H, S, R, D> {
        let listed = self.sent_each(peer, self.handshake_gossip());
        let stated = listed.sent_each(peer, listed.statements());
        let watched = stated.sent_each(peer, watch_frames(watch_pairs(stated.watchers, peer)));
        if reconnected {
            watched.sent_each(peer, lookup_frames(watched.lookups, peer))
        } else {
            watched
        }
    }

    pub open spec fn lane_bound(self, addr: SocketAddr, lane_id: Generation, peer: NodeId) -> EndpointModel<
        H,
        S,
        R,
        D,
    > {
        EndpointModel {
            outbound: OutboundModel {
                lanes: self.outbound.lanes.bound(
                    addr,
                    lane_id,
                    peer,
                    self.membership.is_down(peer),
                ),
                ..self.outbound
            },
            ..self
        }
    }

    pub open spec fn lane_disconnected(self, addr: SocketAddr, lane_id: Generation) -> EndpointModel<
        H,
        S,
        R,
        D,
    > {
        EndpointModel {
            outbound: OutboundModel {
                lanes: self.outbound.lanes.disconnected(addr, lane_id),
                ..self.outbound
            },
            ..self
        }
    }

    pub open spec fn refusing(self, addr: SocketAddr) -> EndpointModel<H, S, R, D> {
        EndpointModel {
            outbound: OutboundModel {
                refused: self.outbound.refused.insert(addr),
                ..self.outbound
            },
            ..self
        }
    }

    /// Waits before the next attempt, or stops: a member's address is retried forever, since
    /// downing and not the attempts settles its fate.
    pub open spec fn backoff_action(self, addr: SocketAddr, attempts: u32) -> PeerAction {
        if self.membership.up_member_at(addr) is None && attempts
            >= self.config.max_connect_attempts {
            PeerAction::Stop
        } else {
            PeerAction::Wait(self.config.spec_reconnect_backoff(attempts) as u128)
        }
    }

    pub open spec fn redial_action(self, addr: SocketAddr, lane_id: Generation) -> PeerAction {
        if self.outbound.lanes.has_lane(addr, lane_id) {
            PeerAction::Dial
        } else {
            PeerAction::Stop
        }
    }
}

impl PeerTask {
    /// The outcome of a dial taken.
    pub open spec fn dialed<H, S, R, D: FailureDetector>(
        self,
        endpoint: EndpointModel<H, S, R, D>,
        outcome: Result<(NodeId, Option<PeerIdentity>), ConnectError>,
        at: u128,
    ) -> (PeerTask, EndpointModel<H, S, R, D>, PeerAction) {
        match outcome {
            Ok((peer, identity)) => match endpoint.outbound_refusal(peer, self.addr, identity) {
                Some(ConnectError::SelfDowned) => (self, endpoint, PeerAction::Stop),
                Some(_) => (self, endpoint.refusing(self.addr), PeerAction::Stop),
                None => (
                    PeerTask { reconnected: true, connected_at: at, ..self },
                    endpoint.let_in(peer, at).lane_bound(self.addr, self.lane_id, peer).set_up(
                        peer,
                        self.reconnected,
                    ),
                    PeerAction::Serve(peer),
                ),
            },
            Err(ConnectError::Refused(RefusalReason::Down)) => (
                self,
                endpoint.ended(at),
                PeerAction::Stop,
            ),
            Err(error) => if error.retryable() {
                let attempts = one_more_attempt(self.attempts);
                (
                    PeerTask { attempts, ..self },
                    endpoint,
                    endpoint.backoff_action(self.addr, attempts),
                )
            } else {
                (self, endpoint.refusing(self.addr), PeerAction::Stop)
            },
        }
    }

    /// The end of a connection taken. One which lasted a heartbeat proves the peer was there, so
    /// the attempts start over.
    pub open spec fn lost<H, S, R, D: FailureDetector>(
        self,
        endpoint: EndpointModel<H, S, R, D>,
        peer: NodeId,
        end: WriterEnd,
        at: u128,
    ) -> (PeerTask, EndpointModel<H, S, R, D>, PeerAction) {
        let after = endpoint.lane_disconnected(self.addr, self.lane_id).held(peer, false);
        if end is LaneClosed {
            (self, after, PeerAction::Stop)
        } else if age(at, self.connected_at) >= endpoint.config.heartbeat_interval {
            (
                PeerTask { attempts: 0, ..self },
                after,
                after.redial_action(self.addr, self.lane_id),
            )
        } else {
            let attempts = one_more_attempt(self.attempts);
            (
                PeerTask { attempts, ..self },
                after,
                after.backoff_action(self.addr, attempts),
            )
        }
    }

    /// The task of a lane which is to be dialed.
    pub fn new(request: DialRequest) -> (task: Self)
        ensures
            task == (PeerTask {
                addr: request.addr,
                lane_id: request.lane_id,
                attempts: 0,
                reconnected: false,
                connected_at: 0,
            }),
    {
        PeerTask {
            addr: request.addr,
            lane_id: request.lane_id,
            attempts: 0,
            reconnected: false,
            connected_at: 0,
        }
    }

    fn count_attempt(&mut self)
        ensures
            *final(self) == (PeerTask {
                attempts: one_more_attempt(old(self).attempts),
                ..*old(self)
            }),
    {
        if self.attempts != u32::MAX {
            self.attempts = self.attempts + 1;
        }
    }

    /// Takes the outcome of a dial.
    pub fn on_dialed<H, S, R, D: FailureDetector, F: FailureDetectorFactory<D>>(
        &mut self,
        endpoint: &mut Endpoint<H, S, R, D, F>,
        outcome: Result<(NodeId, Option<PeerIdentity>), ConnectError>,
        at: u128,
    ) -> (action: PeerAction)
        requires
            old(endpoint).wf(),
        ensures
            final(endpoint).wf(),
            (*final(self), final(endpoint)@, action) == old(self).dialed(
                old(endpoint)@,
                outcome,
                at,
            ),
    {
        match outcome {
            Ok((peer, identity)) => {
                match endpoint.admit_outbound(peer, self.addr, &identity, at) {
                    Ok(_) => {},
                    Err(ConnectError::SelfDowned) => return PeerAction::Stop,
                    Err(_) => {
                        endpoint.refuse(self.addr);
                        return PeerAction::Stop;
                    },
                }
                endpoint.bind_lane(self.addr, self.lane_id, peer);
                set_up(endpoint, peer, self.reconnected);
                self.reconnected = true;
                self.connected_at = at;
                PeerAction::Serve(peer)
            },
            Err(ConnectError::Refused(RefusalReason::Down)) => {
                let _ = endpoint.self_down(at);
                PeerAction::Stop
            },
            Err(error) => {
                if !error.is_retryable() {
                    endpoint.refuse(self.addr);
                    return PeerAction::Stop;
                }
                self.count_attempt();
                backoff_or_give_up(endpoint, self.addr, self.attempts)
            },
        }
    }

    /// Takes the end of a connection.
    pub fn on_lost<H, S, R, D: FailureDetector, F: FailureDetectorFactory<D>>(
        &mut self,
        endpoint: &mut Endpoint<H, S, R, D, F>,
        peer: NodeId,
        end: WriterEnd,
        at: u128,
    ) -> (action: PeerAction)
        requires
            old(endpoint).wf(),
        ensures
            final(endpoint).wf(),
            (*final(self), final(endpoint)@, action) == old(self).lost(
                old(endpoint)@,
                peer,
                end,
                at,
            ),
    {
        endpoint.mark_lane_disconnected(self.addr, self.lane_id);
        endpoint.release_reader(peer);
        if let WriterEnd::LaneClosed = end {
            return PeerAction::Stop;
        }
        if elapsed(at, self.connected_at) >= endpoint.config.heartbeat_interval {
            self.attempts = 0;
            return self.on_waited(endpoint);
        }
        self.count_attempt();
        backoff_or_give_up(endpoint, self.addr, self.attempts)
    }

    /// Dials again after a wait, if the lane is still open.
    pub fn on_waited<H, S, R, D: FailureDetector, F: FailureDetectorFactory<D>>(
        &self,
        endpoint: &Endpoint<H, S, R, D, F>,
    ) -> (action: PeerAction)
        requires
            endpoint.wf(),
        ensures
            action == endpoint@.redial_action(self.addr, self.lane_id),
    {
        if endpoint.is_lane_open(self.addr, self.lane_id) {
            PeerAction::Dial
        } else {
            PeerAction::Stop
        }
    }
}

/// Waits before the next attempt, or gives up on an address which is no member's.
pub fn backoff_or_give_up<H, S, R, D: FailureDetector, F: FailureDetectorFactory<D>>(
    endpoint: &Endpoint<H, S, R, D, F>,
    addr: SocketAddr,
    attempts: u32,
) -> (action: PeerAction)
    requires
        endpoint.wf(),
    ensures
        action == endpoint@.backoff_action(addr, attempts),
{
    if !endpoint.membership.has_up_member_at(addr) && attempts
        >= endpoint.config.max_connect_attempts {
        return PeerAction::Stop;
    }
    PeerAction::Wait(endpoint.config.reconnect_backoff(attempts))
}

fn set_up<H, S, R, D: FailureDetector, F: FailureDetectorFactory<D>>(
    endpoint: &mut Endpoint<H, S, R, D, F>,
    peer: NodeId,
    reconnected: bool,
)
    requires
        old(endpoint).wf(),
    ensures
        final(endpoint).wf(),
        final(endpoint)@ == old(endpoint)@.set_up(peer, reconnected),
{
    let members = endpoint.handshake_frames();
    let _ = endpoint.send_each(peer, members);
    let statements = endpoint.reachability_snapshot_frames();
    let _ = endpoint.send_each(peer, statements);
    let pairs = endpoint.watchers.watches(peer);
    let watches = frames_of_watches(&pairs);
    let _ = endpoint.send_each(peer, watches);
    if reconnected {
        let lookups = endpoint.pending_lookups.frames(peer);
        let _ = endpoint.send_each(peer, lookups);
    }
}

/// What becomes of a frame taken from a queue.
#[derive(Debug)]
pub enum Writing {
    /// Hand the bytes to the transport. The frame is a dead letter if that fails.
    Send { bytes: Vec<u8>, frame: Frame },
    /// The frame exceeds the frame size: it must never reach the transport, whose receiver would end
    /// the connection. It is a dead letter.
    Oversize(Frame),
}

/// Encodes a frame for the transport, if it fits.
pub fn write_frame(frame: Frame, max_frame_size: usize) -> (writing: Writing)
    ensures
        match writing {
            Writing::Send { bytes, frame: sent } => {
                &&& sent == frame
                &&& bytes@ == Frame::encoding(frame.deep_view())
                &&& bytes@.len() <= max_frame_size
            },
            Writing::Oversize(dropped) => {
                &&& dropped == frame
                &&& Frame::encoding(frame.deep_view()).len() > max_frame_size
            },
        },
{
    let bytes = frame.encode_into(Vec::new());
    if bytes.len() > max_frame_size {
        Writing::Oversize(frame)
    } else {
        Writing::Send { bytes, frame }
    }
}

/// The reply destinations a frame carries and the actor it was for.
pub open spec fn letter(frame: FrameModel) -> (Seq<ReplyTag>, Option<ActorId>) {
    match frame {
        FrameModel::Message { target, reply_tags, .. } => (reply_tags, Some(target)),
        _ => (Seq::empty(), None),
    }
}

impl<H, S, R, D: FailureDetector> EndpointModel<H, S, R, D> {
    /// The asks of a frame which never reaches its peer let go.
    pub open spec fn without_letter(self, frame: FrameModel) -> EndpointModel<H, S, R, D> {
        EndpointModel { replies: untagged(self.replies, letter(frame).0, false), ..self }
    }

    pub open spec fn without_letters(self, frames: Seq<FrameModel>) -> EndpointModel<H, S, R, D>
        decreases frames.len(),
    {
        if frames.len() == 0 {
            self
        } else {
            self.without_letters(frames.drop_last()).without_letter(frames.last())
        }
    }
}

impl<H, S, R, D: FailureDetector, F: FailureDetectorFactory<D>> Endpoint<H, S, R, D, F> {
    /// Gives up on a frame which never reached its peer: its asks resolve now rather than on
    /// timeout. The actor the message was for, if it is one.
    pub fn dead_letter(&mut self, frame: &Frame) -> (target: Option<ActorId>)
        requires
            old(self).wf(),
        ensures
            final(self).wf(),
            final(self)@ == old(self)@.without_letter(frame.deep_view()),
            target == letter(frame.deep_view()).1,
    {
        let ghost before = self@;
        match frame {
            Frame::Message { target, reply_tags, .. } => {
                assert(reply_tags.deep_view() =~= reply_tags@);
                self.pending_replies.discard(reply_tags.as_slice());
                Some(*target)
            },
            _ => {
                assert(untagged(before.replies, Seq::empty(), false) =~= before.replies);
                None
            },
        }
    }

    /// Gives up on every frame of a queue, oldest first.
    pub fn drain_dead_letters(&mut self, queue: &Vec<Frame>)
        requires
            old(self).wf(),
        ensures
            final(self).wf(),
            final(self)@ == old(self)@.without_letters(queue.deep_view()),
    {
        let ghost all = queue.deep_view();
        let mut i: usize = 0;
        assert(all.take(0) =~= Seq::empty());
        while i < queue.len()
            invariant
                self.wf(),
                i <= queue@.len(),
                all == queue.deep_view(),
                self@ == old(self)@.without_letters(all.take(i as int)),
            decreases queue@.len() - i,
        {
            proof {
                assert(all[i as int] == queue@[i as int].deep_view());
                assert(all.take(i + 1).drop_last() =~= all.take(i as int));
                assert(all.take(i + 1).last() == all[i as int]);
            }
            let _ = self.dead_letter(&queue[i]);
            i = i + 1;
        }
        assert(all.take(i as int) =~= all);
    }

    /// Ends a lane's task: the lane is given up if it is still the one of its address, and what is
    /// left in its queues is handed out as dead letters to be drained.
    pub fn end_task(&mut self, task: &PeerTask) -> (lane: Option<Lane>)
        requires
            old(self).wf(),
        ensures
            final(self).wf(),
            lane is Some == old(self)@.outbound.lanes.has_lane(task.addr, task.lane_id),
            lane matches Some(l) ==> l@ == old(self)@.outbound.lanes.lanes[task.addr] && final(
                self)@ == old(self)@.given_up(task.addr),
            lane is None ==> final(self)@ == old(self)@,
    {
        self.give_up_lane(task.addr, task.lane_id)
    }
}

/// A member's address is never given up for want of an answer.
pub proof fn members_are_retried_forever<H, S, R, D: FailureDetector>(
    task: PeerTask,
    endpoint: EndpointModel<H, S, R, D>,
    error: ConnectError,
    at: u128,
)
    requires
        endpoint.membership.up_member_at(task.addr) is Some,
        error.retryable(),
    ensures
        task.dialed(endpoint, Err(error), at).2 is Wait,
        task.dialed(endpoint, Err(error), at).1 == endpoint,
{
}

/// Any other address is given up after so many failed attempts in a row.
pub proof fn others_are_given_up<H, S, R, D: FailureDetector>(
    task: PeerTask,
    endpoint: EndpointModel<H, S, R, D>,
    error: ConnectError,
    at: u128,
)
    requires
        endpoint.membership.up_member_at(task.addr) is None,
        error.retryable(),
        task.attempts + 1 >= endpoint.config.max_connect_attempts,
    ensures
        task.dialed(endpoint, Err(error), at).2 == PeerAction::Stop,
{
}

/// An address which answered without speaking this protocol is refused from then on.
pub proof fn an_address_which_does_not_speak_is_not_dialed_again<H, S, R, D: FailureDetector>(
    task: PeerTask,
    endpoint: EndpointModel<H, S, R, D>,
    error: ConnectError,
    at: u128,
)
    requires
        !error.retryable(),
        error != ConnectError::Refused(RefusalReason::Down),
    ensures
        task.dialed(endpoint, Err(error), at).2 == PeerAction::Stop,
        task.dialed(endpoint, Err(error), at).1.outbound.refused.contains(task.addr),
{
}

/// A failed attempt counts, and the wait before the next one grows with the count. A connection which
/// held for a heartbeat interval starts the count over and is dialed again at once; one which was
/// lost sooner counts as a failed attempt.
pub proof fn attempts_are_counted<H, S, R, D: FailureDetector>(
    task: PeerTask,
    endpoint: EndpointModel<H, S, R, D>,
    peer: NodeId,
    error: ConnectError,
    end: WriterEnd,
    at: u128,
)
    requires
        task.attempts < u32::MAX,
    ensures
        ({
            let (after, same, action) = task.dialed(endpoint, Err(error), at);
            let given_up = endpoint.membership.up_member_at(task.addr) is None && task.attempts + 1
                >= endpoint.config.max_connect_attempts;
            &&& error.retryable() ==> {
                &&& after.attempts == task.attempts + 1
                &&& action == (if given_up {
                    PeerAction::Stop
                } else {
                    PeerAction::Wait(
                        endpoint.config.spec_reconnect_backoff((task.attempts + 1) as u32) as u128,
                    )
                })
                &&& same == endpoint
            }
            &&& !error.retryable() ==> action is Stop && after == task
            &&& error == ConnectError::Refused(RefusalReason::Down) ==> same == endpoint.ended(at)
            &&& after.addr == task.addr && after.lane_id == task.lane_id && after.connected_at
                == task.connected_at && after.reconnected == task.reconnected
        }),
        ({
            let (after, left, action) = task.lost(endpoint, peer, end, at);
            let held = task.connected_at + endpoint.config.heartbeat_interval <= at
                || endpoint.config.heartbeat_interval == 0;
            let lane = endpoint.outbound.lanes.lanes.dom().contains(task.addr)
                && endpoint.outbound.lanes.lanes[task.addr].id == task.lane_id;
            let given_up = endpoint.membership.up_member_at(task.addr) is None && task.attempts + 1
                >= endpoint.config.max_connect_attempts;
            &&& left == endpoint.lane_disconnected(task.addr, task.lane_id).held(peer, false)
            &&& end is LaneClosed ==> action is Stop && after == task
            &&& end is ConnectionLost && held ==> after.attempts == 0 && action == (if lane {
                PeerAction::Dial
            } else {
                PeerAction::Stop
            })
            &&& end is ConnectionLost && !held ==> after.attempts == task.attempts + 1 && action == (
            if given_up {
                PeerAction::Stop
            } else {
                PeerAction::Wait(
                    endpoint.config.spec_reconnect_backoff((task.attempts + 1) as u32) as u128,
                )
            })
            &&& after.addr == task.addr && after.lane_id == task.lane_id && after.connected_at
                == task.connected_at && after.reconnected == task.reconnected
        }),
{
}

/// A connection to the node dialed is served: the peer is attended to, its lane bound to it, and it is
/// sent this node's list, statements and watches, and after a lost connection its lookups again.
/// Anyone else answering ends the task, and refuses the address unless this node is downed.
pub proof fn a_connection_is_set_up<H, S, R, D: FailureDetector>(
    task: PeerTask,
    endpoint: EndpointModel<H, S, R, D>,
    peer: NodeId,
    identity: Option<PeerIdentity>,
    at: u128,
)
    ensures
        ({
            let (after, now, action) = task.dialed(endpoint, Ok((peer, identity)), at);
            let refusal = endpoint.outbound_refusal(peer, task.addr, identity);
            let bound = endpoint.let_in(peer, at).lane_bound(task.addr, task.lane_id, peer);
            let listed = bound.sent_each(peer, bound.handshake_gossip());
            let stated = listed.sent_each(peer, listed.statements());
            let watched = stated.sent_each(
                peer,
                watch_frames(watch_pairs(stated.watchers, peer)),
            );
            &&& refusal is None ==> {
                &&& action == PeerAction::Serve(peer)
                &&& after.reconnected && after.connected_at == at && after.attempts == task.attempts
                &&& !task.reconnected ==> now == watched
                &&& task.reconnected ==> now == watched.sent_each(
                    peer,
                    lookup_frames(watched.lookups, peer),
                )
            }
            &&& refusal is Some ==> action is Stop && after == task
            &&& refusal is Some && endpoint.is_downed() ==> now == endpoint
            &&& refusal is Some && !endpoint.is_downed() ==> now.outbound.refused
                == endpoint.outbound.refused.insert(task.addr) && now.outbound.lanes
                == endpoint.outbound.lanes
        }),
{
}

/// Frames which a lost lane held are undeliverable: every reply their messages carry is awaited no
/// longer, and every other one still is.
pub proof fn undelivered_messages_await_nothing<H, S, R, D: FailureDetector>(
    endpoint: EndpointModel<H, S, R, D>,
    frames: Seq<FrameModel>,
    nonce: crate::ids::Nonce,
)
    ensures
        ({
            let after = endpoint.without_letters(frames);
            let carried = exists|i: int, j: int|
                #![trigger frames[i]->reply_tags[j]]
                0 <= i < frames.len() && frames[i] is Message && 0 <= j
                    < frames[i]->reply_tags.len() && frames[i]->reply_tags[j].nonce == nonce;
            &&& after.replies.dom().contains(nonce) <==> endpoint.replies.dom().contains(nonce)
                && !carried
            &&& after.replies.dom().contains(nonce) ==> after.replies[nonce]
                == endpoint.replies[nonce]
            &&& after == (EndpointModel { replies: after.replies, ..endpoint })
        }),
    decreases frames.len(),
{
    if frames.len() > 0 {
        let fewer = frames.drop_last();
        let last = frames.last();
        undelivered_messages_await_nothing(endpoint, fewer, nonce);
        assert(frames[frames.len() - 1] == last);
        let before = exists|i: int, j: int|
            #![trigger fewer[i]->reply_tags[j]]
            0 <= i < fewer.len() && fewer[i] is Message && 0 <= j < fewer[i]->reply_tags.len()
                && fewer[i]->reply_tags[j].nonce == nonce;
        let now = exists|i: int, j: int|
            #![trigger frames[i]->reply_tags[j]]
            0 <= i < frames.len() && frames[i] is Message && 0 <= j < frames[i]->reply_tags.len()
                && frames[i]->reply_tags[j].nonce == nonce;
        let tagged = crate::cluster::reply::is_tagged(letter(last).0, nonce, false);
        if before {
            let (i, j) = choose|i: int, j: int|
                #![trigger fewer[i]->reply_tags[j]]
                0 <= i < fewer.len() && fewer[i] is Message && 0 <= j < fewer[i]->reply_tags.len()
                    && fewer[i]->reply_tags[j].nonce == nonce;
            assert(frames[i]->reply_tags[j].nonce == nonce);
        }
        if tagged {
            let tags = letter(last).0;
            let j = choose|j: int| 0 <= j < tags.len() && (#[trigger] tags[j]).nonce == nonce;
            assert(frames[frames.len() - 1]->reply_tags[j].nonce == nonce);
        }
        if now {
            let (i, j) = choose|i: int, j: int|
                #![trigger frames[i]->reply_tags[j]]
                0 <= i < frames.len() && frames[i] is Message && 0 <= j
                    < frames[i]->reply_tags.len() && frames[i]->reply_tags[j].nonce == nonce;
            if i < fewer.len() {
                assert(fewer[i]->reply_tags[j].nonce == nonce);
            } else {
                assert(letter(last).0[j].nonce == nonce);
            }
        }
    }
}

} // verus!
