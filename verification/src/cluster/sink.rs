//! Messages and replies to actors of other nodes.

use vstd::prelude::*;

use crate::cluster::codec::CodecError;
use crate::cluster::discovery::{following_nonce, LookupError, PendingLookup, WireKey};
use crate::cluster::endpoint::{Endpoint, EndpointModel};
use crate::cluster::failure::{FailureDetector, FailureDetectorFactory};
use crate::cluster::frame::{Frame, FrameModel};
use crate::cluster::lanes::LaneError;
use crate::cluster::reply::{stamped, untagged, ReplyTag, WireReplyTo};
use crate::ids::{ActorId, NodeId, Nonce};
use crate::request_response::AskError;
use crate::table::{put, without};
use crate::wire::Wire;

verus! {

/// A message or reply which was not sent.
#[derive(Debug, Clone, PartialEq, Eq)]
pub enum RemoteSendError {
    /// The remoting endpoint has not been started.
    EndpointNotStarted,
    /// The lane towards the node did not take it.
    Lane(LaneError),
    /// It could not be encoded.
    Codec(CodecError),
    /// Encoded it exceeds the maximum frame size.
    FrameTooLarge { len: usize, max: usize },
}

impl RemoteSendError {
    /// How an ask fails which could not be sent.
    pub open spec fn as_ask_error(self) -> AskError {
        match self {
            RemoteSendError::Lane(LaneError::OutboundQueueFull(_)) => AskError::MailboxFull,
            RemoteSendError::Lane(LaneError::NodeUnreachable(_)) => AskError::ActorTerminated,
            RemoteSendError::EndpointNotStarted => AskError::EndpointNotStarted,
            RemoteSendError::Codec(error) => AskError::NotEncodable(error),
            RemoteSendError::FrameTooLarge { len, max } => AskError::TooLarge { len, max },
        }
    }

    /// How an ask fails which could not be sent.
    pub fn into_ask_error(self) -> (error: AskError)
        ensures
            error == self.as_ask_error(),
    {
        match self {
            RemoteSendError::Lane(LaneError::OutboundQueueFull(_)) => AskError::MailboxFull,
            RemoteSendError::Lane(LaneError::NodeUnreachable(_)) => AskError::ActorTerminated,
            RemoteSendError::EndpointNotStarted => AskError::EndpointNotStarted,
            RemoteSendError::Codec(error) => AskError::NotEncodable(error),
            RemoteSendError::FrameTooLarge { len, max } => AskError::TooLarge { len, max },
        }
    }
}

/// What an encoded payload is for.
#[derive(Debug, Clone, Copy, PartialEq, Eq, Structural)]
pub enum Envelope {
    Message { target: ActorId },
    Reply { nonce: Nonce, recipient: Option<ActorId> },
}

impl Envelope {
    pub open spec fn enclosing(self, payload: Seq<u8>, reply_tags: Seq<ReplyTag>) -> FrameModel {
        match self {
            Envelope::Message { target } => FrameModel::Message { target, reply_tags, payload },
            Envelope::Reply { nonce, recipient } => FrameModel::Reply { nonce, recipient, payload },
        }
    }

    fn enclose(self, payload: Vec<u8>, reply_tags: &Vec<ReplyTag>) -> (frame: Frame)
        ensures
            frame.deep_view() == self.enclosing(payload@, reply_tags@),
    {
        assert(payload.deep_view() =~= payload@);
        match self {
            Envelope::Message { target } => {
                let tags = crate::cluster::outbound::copy_all(reply_tags);
                assert(tags.deep_view() =~= reply_tags@);
                Frame::Message { target, reply_tags: tags, payload }
            },
            Envelope::Reply { nonce, recipient } => {
                assert(recipient.deep_view() == recipient);
                Frame::Reply { nonce, recipient, payload }
            },
        }
    }
}

/// Fails for a frame which exceeds the frame size, its envelope included. Checked when sending, so
/// an oversize ask fails at once rather than at the writer.
pub fn check_frame_size(frame: Frame, max_frame_size: usize) -> (r: Result<Frame, RemoteSendError>)
    ensures
        ({
            let len = Frame::encoding(frame.deep_view()).len();
            if len > max_frame_size {
                r matches Err(RemoteSendError::FrameTooLarge { len: l, max }) && l == len && max
                    == max_frame_size
            } else {
                r == Ok::<Frame, RemoteSendError>(frame)
            }
        }),
{
    let len: usize = frame.encoded_len();
    if len > max_frame_size {
        return Err(RemoteSendError::FrameTooLarge { len, max: max_frame_size });
    }
    Ok(frame)
}

pub open spec fn payload_view(payload: Result<Vec<u8>, CodecError>) -> Result<Seq<u8>, CodecError> {
    match payload {
        Ok(bytes) => Ok(bytes@),
        Err(error) => Err(error),
    }
}

impl<H, S, R, D: FailureDetector> EndpointModel<H, S, R, D> {
    /// A payload sent in its envelope. The replies awaited with it are stamped with the peer before
    /// it is queued, so an answer finds them, and let go if it is not.
    pub open spec fn sending(
        self,
        peer: NodeId,
        envelope: Envelope,
        payload: Result<Seq<u8>, CodecError>,
        tags: Seq<ReplyTag>,
    ) -> (EndpointModel<H, S, R, D>, Result<(), RemoteSendError>) {
        let stamped = EndpointModel { replies: stamped(self.replies, tags, peer), ..self };
        let dropped = EndpointModel { replies: untagged(stamped.replies, tags, false), ..self };
        match payload {
            Err(error) => (dropped, Err(RemoteSendError::Codec(error))),
            Ok(payload) => {
                let frame = envelope.enclosing(payload, tags);
                let len = Frame::encoding(frame).len();
                if len > self.config.max_frame_size {
                    (
                        dropped,
                        Err(
                            RemoteSendError::FrameTooLarge {
                                len: len as usize,
                                max: self.config.max_frame_size,
                            },
                        ),
                    )
                } else {
                    let (sent, r) = stamped.sent(peer, frame);
                    match r {
                        Ok(_) => (sent, Ok(())),
                        Err(error) => (
                            EndpointModel {
                                replies: untagged(sent.replies, tags, false),
                                ..sent
                            },
                            Err(RemoteSendError::Lane(error)),
                        ),
                    }
                }
            },
        }
    }
}

impl<H, S, R, D: FailureDetector> EndpointModel<H, S, R, D> {
    pub open spec fn dropping_reply(self, to: WireReplyTo) -> EndpointModel<H, S, R, D> {
        self.sent(
            to.node,
            FrameModel::ReplyDropped { nonce: to.nonce, recipient: to.recipient },
        ).0
    }

    pub open spec fn answering(
        self,
        to: WireReplyTo,
        payload: Result<Seq<u8>, CodecError>,
        tags: Seq<ReplyTag>,
    ) -> (EndpointModel<H, S, R, D>, Result<(), RemoteSendError>) {
        let (after, r) = self.sending(
            to.node,
            Envelope::Reply { nonce: to.nonce, recipient: to.recipient },
            payload,
            tags,
        );
        match r {
            Ok(_) => (after, Ok(())),
            Err(error) => (after.dropping_reply(to), Err(error)),
        }
    }
}

impl<H, S, R, D: FailureDetector, F: FailureDetectorFactory<D>> Endpoint<H, S, R, D, F> {
    fn discard_replies(&mut self, tags: &Vec<ReplyTag>)
        requires
            old(self).wf(),
        ensures
            final(self).wf(),
            final(self)@ == (EndpointModel {
                replies: untagged(old(self)@.replies, tags@, false),
                ..old(self)@
            }),
    {
        self.pending_replies.discard(tags.as_slice());
    }

    /// Sends an encoded payload. The replies awaited with it are returned, so an ask which gives up
    /// can release them.
    pub fn encode_and_send(
        &mut self,
        peer: NodeId,
        envelope: Envelope,
        payload: Result<Vec<u8>, CodecError>,
        reply_tags: Vec<ReplyTag>,
    ) -> (r: Result<Vec<ReplyTag>, RemoteSendError>)
        requires
            old(self).wf(),
        ensures
            final(self).wf(),
            final(self)@ == old(self)@.sending(
                peer,
                envelope,
                payload_view(payload),
                reply_tags@,
            ).0,
            match old(self)@.sending(peer, envelope, payload_view(payload), reply_tags@).1 {
                Ok(_) => r == Ok::<Vec<ReplyTag>, RemoteSendError>(reply_tags),
                Err(error) => r == Err::<Vec<ReplyTag>, RemoteSendError>(error),
            },
    {
        let ghost before = self@;
        self.pending_replies.stamp(reply_tags.as_slice(), peer);
        let bytes = match payload {
            Ok(bytes) => bytes,
            Err(error) => {
                self.discard_replies(&reply_tags);
                return Err(RemoteSendError::Codec(error));
            },
        };
        let frame = envelope.enclose(bytes, &reply_tags);
        let max_frame_size: usize = self.config.max_frame_size;
        match check_frame_size(frame, max_frame_size) {
            Err(error) => {
                self.discard_replies(&reply_tags);
                Err(error)
            },
            Ok(frame) => match self.send(peer, frame) {
                Ok(_) => Ok(reply_tags),
                Err(error) => {
                    self.discard_replies(&reply_tags);
                    Err(RemoteSendError::Lane(error))
                },
            },
        }
    }

    /// Answers a request of another node. An answer which cannot be sent tells that node that none
    /// will arrive.
    pub fn answer(
        &mut self,
        to: WireReplyTo,
        payload: Result<Vec<u8>, CodecError>,
        reply_tags: Vec<ReplyTag>,
    ) -> (r: Result<(), RemoteSendError>)
        requires
            old(self).wf(),
        ensures
            final(self).wf(),
            (final(self)@, r) == old(self)@.answering(to, payload_view(payload), reply_tags@),
    {
        let envelope = Envelope::Reply { nonce: to.nonce, recipient: to.recipient };
        match self.encode_and_send(to.node, envelope, payload, reply_tags) {
            Ok(_) => Ok(()),
            Err(error) => {
                self.drop_reply(to);
                Err(error)
            },
        }
    }

    /// Tells the node of a request that no answer to it will arrive.
    pub fn drop_reply(&mut self, to: WireReplyTo)
        requires
            old(self).wf(),
        ensures
            final(self).wf(),
            final(self)@ == old(self)@.dropping_reply(to),
    {
        let frame = Frame::ReplyDropped { nonce: to.nonce, recipient: to.recipient };
        assert(to.recipient.deep_view() == to.recipient);
        let _ = self.send(to.node, frame);
    }

    /// Starts a lookup at the Up member advertising the address. The nonce its answer comes under.
    pub fn begin_lookup(&mut self, key: WireKey, addr: crate::addr::SocketAddr, sink: S) -> (r: Result<
        Nonce,
        LookupError,
    >)
        requires
            old(self).wf(),
        ensures
            final(self).wf(),
            match old(self)@.membership.up_member_at(addr) {
                None => {
                    &&& r == Err::<Nonce, LookupError>(LookupError::NotAMember(addr))
                    &&& final(self)@ == old(self)@
                },
                Some(node) => {
                    let nonce = Nonce(old(self)@.next_lookup);
                    let asked = EndpointModel {
                        lookups: put(
                            old(self)@.lookups,
                            nonce,
                            PendingLookup { peer: node, key, sink },
                        ),
                        next_lookup: following_nonce(old(self)@.next_lookup),
                        ..old(self)@
                    };
                    let (sent, taken) = asked.sent(
                        node,
                        FrameModel::Lookup { nonce, key: key.deep_view() },
                    );
                    &&& taken is Ok ==> r == Ok::<Nonce, LookupError>(nonce) && final(self)@ == sent
                    &&& taken is Err ==> {
                        &&& r == Err::<Nonce, LookupError>(LookupError::Unreachable(addr))
                        &&& final(self)@ == (EndpointModel {
                            lookups: without(sent.lookups, nonce),
                            ..sent
                        })
                    }
                },
            },
    {
        match crate::cluster::discovery::begin_lookup(
            &self.membership,
            &mut self.pending_lookups,
            key,
            addr,
            sink,
        ) {
            Err(error) => Err(error),
            Ok((node, frame)) => {
                let nonce = match &frame {
                    Frame::Lookup { nonce, .. } => *nonce,
                    _ => Nonce(0),
                };
                match self.send(node, frame) {
                    Ok(_) => Ok(nonce),
                    Err(_) => {
                        let _ = self.pending_lookups.cancel(nonce);
                        Err(LookupError::Unreachable(addr))
                    },
                }
            },
        }
    }
}

/// A payload which is not sent leaves no reply awaited: every one it carried is let go.
pub proof fn a_failed_send_awaits_nothing<H, S, R, D: FailureDetector>(
    endpoint: EndpointModel<H, S, R, D>,
    peer: NodeId,
    envelope: Envelope,
    payload: Result<Seq<u8>, CodecError>,
    tags: Seq<ReplyTag>,
    i: int,
)
    requires
        0 <= i < tags.len(),
        endpoint.sending(peer, envelope, payload, tags).1 is Err,
    ensures
        !endpoint.sending(peer, envelope, payload, tags).0.replies.dom().contains(tags[i].nonce),
{
    assert(crate::cluster::reply::is_tagged(tags, tags[i].nonce, false));
}

/// What is queued fits the frame size, so the writer never has to drop it.
pub proof fn what_is_sent_fits<H, S, R, D: FailureDetector>(
    endpoint: EndpointModel<H, S, R, D>,
    peer: NodeId,
    envelope: Envelope,
    payload: Seq<u8>,
    tags: Seq<ReplyTag>,
)
    requires
        endpoint.sending(peer, envelope, Ok(payload), tags).1 is Ok,
    ensures
        Frame::encoding(envelope.enclosing(payload, tags)).len() <= endpoint.config.max_frame_size,
{
}

/// What becomes of a payload: one which cannot be encoded or does not fit a frame is not sent; any
/// other is queued for its peer in its envelope, with the replies it carries, and awaits those from
/// that peer if the lane takes it. A failure says what happened and lets go of what it carried.
pub proof fn a_payload_is_sent_in_its_envelope<H, S, R, D: FailureDetector>(
    endpoint: EndpointModel<H, S, R, D>,
    peer: NodeId,
    envelope: Envelope,
    payload: Result<Seq<u8>, CodecError>,
    tags: Seq<ReplyTag>,
)
    ensures
        ({
            let (after, r) = endpoint.sending(peer, envelope, payload, tags);
            let frame = match envelope {
                Envelope::Message { target } => FrameModel::Message {
                    target,
                    reply_tags: tags,
                    payload: payload->Ok_0,
                },
                Envelope::Reply { nonce, recipient } => FrameModel::Reply {
                    nonce,
                    recipient,
                    payload: payload->Ok_0,
                },
            };
            let len = Frame::encoding(frame).len();
            let max = endpoint.config.max_frame_size;
            let (outbound, queued) = endpoint.outbound.sent(
                endpoint.membership,
                endpoint.coordinator.lifecycle == crate::cluster::coordinator::Lifecycle::Downed,
                peer,
                frame,
            );
            &&& payload matches Err(error) ==> r == Err::<(), RemoteSendError>(
                RemoteSendError::Codec(error),
            ) && after.outbound == endpoint.outbound
            &&& payload is Ok && len > max ==> r == Err::<(), RemoteSendError>(
                RemoteSendError::FrameTooLarge { len: len as usize, max },
            ) && after.outbound == endpoint.outbound
            &&& payload is Ok && len <= max ==> {
                &&& after.outbound == outbound
                &&& r is Ok <==> queued is Ok
                &&& queued matches Err(error) ==> r == Err::<(), RemoteSendError>(
                    RemoteSendError::Lane(error),
                )
            }
            &&& r is Ok ==> after.replies == stamped(endpoint.replies, tags, peer)
            &&& r is Err ==> after.replies == untagged(
                stamped(endpoint.replies, tags, peer),
                tags,
                false,
            )
            &&& after == (EndpointModel {
                outbound: after.outbound,
                replies: after.replies,
                ..endpoint
            })
        }),
{
}

/// A reply which cannot be sent is answered with the news that it was dropped, to the node and the
/// recipient it was for.
pub proof fn an_unsent_reply_is_reported<H, S, R, D: FailureDetector>(
    endpoint: EndpointModel<H, S, R, D>,
    to: WireReplyTo,
    payload: Result<Seq<u8>, CodecError>,
    tags: Seq<ReplyTag>,
)
    ensures
        ({
            let (after, r) = endpoint.answering(to, payload, tags);
            let (tried, sent) = endpoint.sending(
                to.node,
                Envelope::Reply { nonce: to.nonce, recipient: to.recipient },
                payload,
                tags,
            );
            &&& r is Ok <==> sent is Ok
            &&& r is Err ==> r == sent
            &&& sent is Ok ==> after == tried
            &&& sent is Err ==> after == tried.sent(
                to.node,
                FrameModel::ReplyDropped { nonce: to.nonce, recipient: to.recipient },
            ).0
        }),
{
}

/// An ask which could not be sent says why in its own terms.
pub proof fn a_failed_ask_says_why(error: RemoteSendError)
    ensures
        error matches RemoteSendError::Lane(lane) ==> error.as_ask_error() == (match lane {
            LaneError::OutboundQueueFull(_) => AskError::MailboxFull,
            LaneError::NodeUnreachable(_) => AskError::ActorTerminated,
        }),
        error matches RemoteSendError::Codec(codec) ==> error.as_ask_error()
            == AskError::NotEncodable(codec),
        error matches RemoteSendError::FrameTooLarge { len, max } ==> error.as_ask_error() == (
        AskError::TooLarge { len, max }),
        error is EndpointNotStarted ==> error.as_ask_error() == AskError::EndpointNotStarted,
{
}

} // verus!
