//! Frames received from a peer, in arrival order: each counts as a heartbeat, and none of a dead
//! incarnation is delivered.

use vstd::prelude::*;

use crate::cluster::discovery::{key_result, on_lookup, on_lookup_reply, LookupResult, WireKeyModel};
use crate::cluster::endpoint::{Endpoint, EndpointModel};
use crate::cluster::failure::{FailureDetector, FailureDetectorFactory, PeerLiveness};
use crate::cluster::frame::{Frame, FrameModel};
use crate::cluster::receptionist::{is_republished, Receptionist, ReplicaModel, WireRegistration,
    WireRegistrationModel};
use crate::cluster::registrations::{collect, collected, partial_view, partial_wf, Partial};
use crate::cluster::registry::Named;
use crate::cluster::reply::{on_undeliverable, reply_dropped_frames, PendingReply, ReplyTag};
use crate::cluster::transport::TransportError;
use crate::cluster::watch::{WireWatchKey, WireWatchModel};
use crate::ids::{ActorId, NodeId, Nonce};
use crate::seqs::first;
use crate::table::{value_of, without};
use crate::wire::Wire;

verus! {

/// How a stream ends. A poisoned one ends its whole connection, a closed one only itself.
#[derive(Debug, Clone, Copy, PartialEq, Eq, Structural)]
pub enum ReadEnd {
    Closed,
    Poisoned,
}

/// What a frame leaves to be done outside the endpoint.
#[derive(Debug)]
pub enum Delivery<S, R> {
    Nothing,
    /// Deliver the payload to the actor; if that fails, [Endpoint::on_undeliverable] is owed.
    Message { target: ActorId, reply_tags: Vec<ReplyTag>, payload: Vec<u8> },
    /// Register a local watcher with the actor and report it to [Endpoint::finish_watch].
    Watch { target: ActorId },
    /// Settle the lookup.
    Lookup { sink: S, result: LookupResult },
    /// Settle the ask.
    Reply { reply: PendingReply<R>, payload: Vec<u8> },
    /// Hand a chunk of the peer's registrations to [on_registrations].
    Registrations { version: u64, chunk: u32, chunks: u32, entries: Vec<WireRegistration> },
}

#[verifier::ext_equal]
pub ghost enum DeliveryModel<S, R> {
    Nothing,
    Message { target: ActorId, reply_tags: Seq<ReplyTag>, payload: Seq<u8> },
    Watch { target: ActorId },
    Lookup { sink: S, result: LookupResult },
    Reply { reply: PendingReply<R>, payload: Seq<u8> },
    Registrations { version: u64, chunk: u32, chunks: u32, entries: Seq<WireRegistrationModel> },
}

impl<S, R> View for Delivery<S, R> {
    type V = DeliveryModel<S, R>;

    open spec fn view(&self) -> DeliveryModel<S, R> {
        match *self {
            Delivery::Nothing => DeliveryModel::Nothing,
            Delivery::Message { target, reply_tags, payload } => DeliveryModel::Message {
                target,
                reply_tags: reply_tags.deep_view(),
                payload: payload.deep_view(),
            },
            Delivery::Watch { target } => DeliveryModel::Watch { target },
            Delivery::Lookup { sink, result } => DeliveryModel::Lookup { sink, result },
            Delivery::Reply { reply, payload } => DeliveryModel::Reply {
                reply,
                payload: payload.deep_view(),
            },
            Delivery::Registrations { version, chunk, chunks, entries } => {
                DeliveryModel::Registrations {
                    version,
                    chunk,
                    chunks,
                    entries: entries.deep_view(),
                }
            },
        }
    }
}

pub open spec fn read_view<S, R>(r: Result<Delivery<S, R>, ReadEnd>) -> Result<
    DeliveryModel<S, R>,
    ReadEnd,
> {
    match r {
        Ok(delivery) => Ok(delivery@),
        Err(end) => Err(end),
    }
}

/// The named actor of a key among the registrations.
pub open spec fn named_in(registrations: Seq<WireRegistrationModel>, key: WireKeyModel) -> Named {
    match first(registrations, crate::cluster::registry::is_under(key)) {
        Some(registration) => Named::Found(registration.id),
        None => match first(registrations, crate::cluster::registry::is_named(key.name)) {
            Some(_) => Named::TypeMismatch,
            None => Named::NotFound,
        },
    }
}

impl<H, S, R, D: FailureDetector> EndpointModel<H, S, R, D> {
    /// A heartbeat of a peer which is followed.
    pub open spec fn heard(self, peer: NodeId, at: u128) -> EndpointModel<H, S, R, D> {
        if self.liveness.dom().contains(peer) {
            let entry = PeerLiveness {
                detector: self.liveness[peer].detector.heard(at),
                ..self.liveness[peer]
            };
            EndpointModel { liveness: self.liveness.insert(peer, entry), ..self }
        } else {
            self
        }
    }

    pub open spec fn asked_lookup(self, nonce: Nonce, peer: NodeId) -> bool {
        value_of(self.lookups, nonce) matches Some(lookup) && lookup.peer == peer
    }

    pub open spec fn asked_reply(self, nonce: Nonce, peer: NodeId) -> bool {
        self.replies.dom().contains(nonce) && self.replies[nonce].peer == Some(peer)
    }

    /// A remote watcher of a local actor forgotten; with the last one from its node the local
    /// watcher is to be deregistered.
    pub open spec fn unwatched(self, peer: NodeId, target: ActorId, watcher: ActorId) -> EndpointModel<
        H,
        S,
        R,
        D,
    > {
        let key = WireWatchKey { peer, target };
        let left = self.wire_watches[key].without(watcher);
        if !self.wire_watches.dom().contains(key) {
            self
        } else if left.watchers.len() > 0 {
            EndpointModel { wire_watches: self.wire_watches.insert(key, left), ..self }
        } else {
            EndpointModel {
                wire_watches: self.wire_watches.remove(key),
                released: match self.wire_watches[key].wire_watcher_id {
                    Some(wire_watcher_id) => self.released.insert(
                        crate::cluster::watch::RegisteredWatch { target, wire_watcher_id },
                    ),
                    None => self.released,
                },
                ..self
            }
        }
    }

    /// A frame of a live peer, other than gossip, acted on.
    pub open spec fn delivering(self, peer: NodeId, frame: FrameModel) -> (
        EndpointModel<H, S, R, D>,
        Result<DeliveryModel<S, R>, ReadEnd>,
    ) {
        match frame {
            FrameModel::Message { target, reply_tags, payload } => (
                self,
                Ok(DeliveryModel::Message { target, reply_tags, payload }),
            ),
            FrameModel::Watch { target, watcher } => {
                let key = WireWatchKey { peer, target };
                let known = self.wire_watches.dom().contains(key);
                let watch = if known {
                    self.wire_watches[key].with(watcher)
                } else {
                    WireWatchModel { wire_watcher_id: None, watchers: seq![watcher] }
                };
                (
                    EndpointModel { wire_watches: self.wire_watches.insert(key, watch), ..self },
                    Ok(
                        if known {
                            DeliveryModel::Nothing
                        } else {
                            DeliveryModel::Watch { target }
                        },
                    ),
                )
            },
            FrameModel::Unwatch { target, watcher } => (
                self.unwatched(peer, target, watcher),
                Ok(DeliveryModel::Nothing),
            ),
            FrameModel::Terminated { target, watcher } => (
                self.fired(peer, target, watcher),
                Ok(DeliveryModel::Nothing),
            ),
            FrameModel::Lookup { nonce, key } => (
                self.sent(
                    peer,
                    FrameModel::LookupReply {
                        nonce,
                        result: key_result(named_in(self.registrations, key)),
                    },
                ).0,
                Ok(DeliveryModel::Nothing),
            ),
            FrameModel::LookupReply { nonce, result } => if self.asked_lookup(nonce, peer) {
                (
                    EndpointModel { lookups: without(self.lookups, nonce), ..self },
                    Ok(
                        DeliveryModel::Lookup {
                            sink: value_of(self.lookups, nonce)->0.sink,
                            result,
                        },
                    ),
                )
            } else {
                (self, Ok(DeliveryModel::Nothing))
            },
            FrameModel::Reply { nonce, payload, .. } => if self.asked_reply(nonce, peer) {
                (
                    EndpointModel { replies: self.replies.remove(nonce), ..self },
                    Ok(DeliveryModel::Reply { reply: self.replies[nonce], payload }),
                )
            } else {
                (self, Ok(DeliveryModel::Nothing))
            },
            FrameModel::ReplyDropped { nonce, .. } => (
                if self.asked_reply(nonce, peer) {
                    EndpointModel { replies: self.replies.remove(nonce), ..self }
                } else {
                    self
                },
                Ok(DeliveryModel::Nothing),
            ),
            FrameModel::Reachability { observations } => (
                EndpointModel {
                    reachability: self.reachability.merged(
                        observations,
                        self.membership.up_nodes(),
                    ),
                    ..self
                },
                Ok(DeliveryModel::Nothing),
            ),
            FrameModel::Registrations { version, chunk, chunks, entries } => (
                self,
                Ok(DeliveryModel::Registrations { version, chunk, chunks, entries }),
            ),
            FrameModel::Gossip { .. } | FrameModel::Handshake(_) | FrameModel::Refused { .. } => (
                self,
                Err(ReadEnd::Poisoned),
            ),
        }
    }

    /// A frame of a peer taken: gossip is merged, and unless the peer is dead, which gossip may have
    /// just said, anything else is acted on.
    pub open spec fn taking(self, peer: NodeId, frame: FrameModel, at: u128) -> (
        EndpointModel<H, S, R, D>,
        Result<DeliveryModel<S, R>, ReadEnd>,
    ) {
        let heard = self.heard(peer, at);
        match frame {
            FrameModel::Gossip { members, .. } => {
                let after = heard.gossiped(members, at);
                (
                    after,
                    if after.membership.is_down(peer) {
                        Err(ReadEnd::Poisoned)
                    } else {
                        Ok(DeliveryModel::Nothing)
                    },
                )
            },
            _ => if heard.membership.is_down(peer) {
                (heard, Err(ReadEnd::Poisoned))
            } else {
                heard.delivering(peer, frame)
            },
        }
    }

    /// What was received of a peer taken; a frame which cannot be decoded poisons the connection.
    pub open spec fn reading(
        self,
        peer: NodeId,
        received: Result<Option<Seq<u8>>, TransportError>,
        at: u128,
    ) -> (EndpointModel<H, S, R, D>, Result<DeliveryModel<S, R>, ReadEnd>) {
        match received {
            Ok(Some(bytes)) => match Frame::read(bytes, 0) {
                Ok((frame, _)) => self.taking(peer, frame, at),
                Err(_) => (self, Err(ReadEnd::Poisoned)),
            },
            _ => (self, Err(ReadEnd::Closed)),
        }
    }
}

impl<H, S, R, D: FailureDetector, F: FailureDetectorFactory<D>> Endpoint<H, S, R, D, F> {
    /// Acts on a frame of a live peer other than gossip.
    fn deliver(&mut self, peer: NodeId, frame: Frame) -> (r: Result<Delivery<S, R>, ReadEnd>)
        requires
            old(self).wf(),
        ensures
            final(self).wf(),
            final(self)@ == old(self)@.delivering(peer, frame.deep_view()).0,
            read_view(r) == old(self)@.delivering(peer, frame.deep_view()).1,
    {
        let ghost before = self@;
        match frame {
            Frame::Message { target, reply_tags, payload } => Ok(
                Delivery::Message { target, reply_tags, payload },
            ),
            Frame::Watch { target, watcher } => {
                if self.on_watch(peer, target, watcher) {
                    Ok(Delivery::Watch { target })
                } else {
                    Ok(Delivery::Nothing)
                }
            },
            Frame::Unwatch { target, watcher } => {
                self.on_unwatch(peer, target, watcher);
                Ok(Delivery::Nothing)
            },
            Frame::Terminated { target, watcher } => {
                self.on_terminated(peer, target, watcher);
                Ok(Delivery::Nothing)
            },
            Frame::Lookup { nonce, key } => {
                let reply = on_lookup(&self.registry, nonce, &key);
                assert(self.registry.spec_named(key.deep_view()) == named_in(
                    before.registrations,
                    key.deep_view(),
                ));
                let _ = self.send(peer, reply);
                Ok(Delivery::Nothing)
            },
            Frame::LookupReply { nonce, result } => {
                match on_lookup_reply(&mut self.pending_lookups, peer, nonce) {
                    Some(sink) => Ok(Delivery::Lookup { sink, result }),
                    None => Ok(Delivery::Nothing),
                }
            },
            Frame::Reply { nonce, recipient: _, payload } => {
                match self.pending_replies.take_from(nonce, peer) {
                    Some(reply) => Ok(Delivery::Reply { reply, payload }),
                    None => Ok(Delivery::Nothing),
                }
            },
            Frame::ReplyDropped { nonce, recipient: _ } => {
                let _ = self.pending_replies.take_from(nonce, peer);
                Ok(Delivery::Nothing)
            },
            Frame::Reachability { observations } => {
                assert(observations.deep_view() =~= observations@);
                self.merge_reachability(observations.as_slice());
                Ok(Delivery::Nothing)
            },
            Frame::Registrations { version, chunk, chunks, entries } => Ok(
                Delivery::Registrations { version, chunk, chunks, entries },
            ),
            Frame::Gossip { .. } => Err(ReadEnd::Poisoned),
            Frame::Handshake(_) => Err(ReadEnd::Poisoned),
            Frame::Refused { .. } => Err(ReadEnd::Poisoned),
        }
    }

    /// Takes a frame of a peer.
    pub fn take_frame(&mut self, peer: NodeId, frame: Frame, at: u128) -> (r: Result<
        Delivery<S, R>,
        ReadEnd,
    >)
        requires
            old(self).wf(),
        ensures
            final(self).wf(),
            final(self)@ == old(self)@.taking(peer, frame.deep_view(), at).0,
            read_view(r) == old(self)@.taking(peer, frame.deep_view(), at).1,
    {
        let ghost before = self@;
        self.liveness.record_heartbeat(peer, at);
        assert(self@ =~= before.heard(peer, at));
        if let Frame::Gossip { members, .. } = &frame {
            assert(members.deep_view() =~= members@);
            self.on_gossip(members.as_slice(), at);
            if self.membership.is_down(peer) {
                return Err(ReadEnd::Poisoned);
            }
            return Ok(Delivery::Nothing);
        }
        if self.membership.is_down(peer) {
            return Err(ReadEnd::Poisoned);
        }
        self.deliver(peer, frame)
    }

    /// Takes what was received of a peer.
    pub fn read_frame(
        &mut self,
        peer: NodeId,
        received: Result<Option<Vec<u8>>, TransportError>,
        at: u128,
    ) -> (r: Result<Delivery<S, R>, ReadEnd>)
        requires
            old(self).wf(),
        ensures
            final(self).wf(),
            final(self)@ == old(self)@.reading(
                peer,
                crate::cluster::connect::received_view(received),
                at,
            ).0,
            read_view(r) == old(self)@.reading(
                peer,
                crate::cluster::connect::received_view(received),
                at,
            ).1,
    {
        match received {
            Ok(Some(bytes)) => match Frame::from_bytes(bytes.as_slice()) {
                Ok(frame) => self.take_frame(peer, frame, at),
                Err(_) => Err(ReadEnd::Poisoned),
            },
            _ => Err(ReadEnd::Closed),
        }
    }

    /// Notifies the peer that a message could not be delivered, once per reply it awaits.
    pub fn on_undeliverable(&mut self, peer: NodeId, reply_tags: &Vec<ReplyTag>)
        requires
            old(self).wf(),
        ensures
            final(self).wf(),
            final(self)@ == old(self)@.sent_each(peer, reply_dropped_frames(reply_tags@)),
    {
        let frames = on_undeliverable(reply_tags.as_slice());
        let _ = self.send_each(peer, frames);
    }
}

/// Collects a chunk of a peer's registrations and applies the set once it is complete, shown if the
/// peer is Up; whether a set was applied.
pub fn on_registrations(
    receptionist: &mut Receptionist,
    members: &crate::cluster::membership::Membership,
    peer: NodeId,
    partial: &mut Option<Partial>,
    version: u64,
    chunk: u32,
    chunks: u32,
    entries: Vec<WireRegistration>,
) -> (applied: bool)
    requires
        old(receptionist).wf(),
        members.wf(),
        partial_wf(*old(partial)),
    ensures
        final(receptionist).wf(),
        partial_wf(*final(partial)),
        ({
            let before = old(receptionist)@;
            let (open, complete) = collected(
                partial_view(*old(partial)),
                before.applied_version(peer),
                version,
                chunk,
                chunks,
                entries.deep_view(),
            );
            let visible = members@.is_up(peer);
            &&& partial_view(*final(partial)) == open
            &&& match complete {
                Some(set) if before.applies(peer, version, visible) => {
                    &&& applied
                    &&& final(receptionist)@ == before.with_replica(
                        peer,
                        ReplicaModel { version, visible, entries: set },
                    )
                    &&& if visible {
                        is_republished(
                            old(receptionist).subscribed(),
                            final(receptionist).subscribed(),
                            final(receptionist)@.replicas,
                        )
                    } else {
                        final(receptionist).subscribed() == old(receptionist).subscribed()
                    }
                },
                _ => {
                    &&& !applied
                    &&& final(receptionist)@ == before
                    &&& final(receptionist).subscribed() == old(receptionist).subscribed()
                },
            }
        }),
{
    let applied_version = receptionist.applied_version(peer);
    match collect(partial, applied_version, version, chunk, chunks, entries) {
        Some(set) => {
            let visible = members.is_up(peer);
            receptionist.apply(peer, version, set, visible)
        },
        None => false,
    }
}

/// Nothing of a dead incarnation is acted on: its frames count as heartbeats at most.
pub proof fn a_dead_peer_is_not_heard<H, S, R, D: FailureDetector>(
    endpoint: EndpointModel<H, S, R, D>,
    peer: NodeId,
    frame: FrameModel,
    at: u128,
)
    requires
        endpoint.membership.is_down(peer),
        !(frame is Gossip),
    ensures
        endpoint.taking(peer, frame, at) == (
            endpoint.heard(peer, at),
            Err::<DeliveryModel<S, R>, ReadEnd>(ReadEnd::Poisoned),
        ),
{
}

/// A reply settles an ask only if it comes from the node which was asked.
pub proof fn only_the_asked_node_settles<H, S, R, D: FailureDetector>(
    endpoint: EndpointModel<H, S, R, D>,
    peer: NodeId,
    nonce: Nonce,
    recipient: Option<ActorId>,
    payload: Seq<u8>,
)
    requires
        !endpoint.asked_reply(nonce, peer),
    ensures
        endpoint.delivering(peer, FrameModel::Reply { nonce, recipient, payload }).0 == endpoint,
        endpoint.delivering(peer, FrameModel::ReplyDropped { nonce, recipient }).0 == endpoint,
{
}

/// A message is handed on as it came, with its reply tags, and so is a set of registrations; neither
/// changes the endpoint. What only opens a connection poisons it later.
pub proof fn messages_are_handed_on<H, S, R, D: FailureDetector>(
    endpoint: EndpointModel<H, S, R, D>,
    peer: NodeId,
    frame: FrameModel,
)
    ensures
        frame matches FrameModel::Message { target, reply_tags, payload } ==> endpoint.delivering(
            peer,
            frame,
        ) == (
            endpoint,
            Ok::<DeliveryModel<S, R>, ReadEnd>(
                DeliveryModel::Message { target, reply_tags, payload },
            ),
        ),
        frame matches FrameModel::Registrations { version, chunk, chunks, entries }
            ==> endpoint.delivering(peer, frame) == (
            endpoint,
            Ok::<DeliveryModel<S, R>, ReadEnd>(
                DeliveryModel::Registrations { version, chunk, chunks, entries },
            ),
        ),
        endpoint.delivering(peer, frame).1 is Err <==> frame is Gossip || frame is Handshake
            || frame is Refused,
        endpoint.delivering(peer, frame).1 is Err ==> endpoint.delivering(peer, frame) == (
            endpoint,
            Err::<DeliveryModel<S, R>, ReadEnd>(ReadEnd::Poisoned),
        ),
{
}

/// A peer's watch of an actor is taken once per watcher, behind those there already, and only the
/// first one has this node watch the actor. The last one to go takes the watch along and releases
/// what it had registered.
pub proof fn remote_watches_are_kept<H, S, R, D: FailureDetector>(
    endpoint: EndpointModel<H, S, R, D>,
    peer: NodeId,
    target: ActorId,
    watcher: ActorId,
    other: WireWatchKey,
)
    ensures
        ({
            let key = WireWatchKey { peer, target };
            let known = endpoint.wire_watches.dom().contains(key);
            let held = endpoint.wire_watches[key];
            let (after, r) = endpoint.delivering(peer, FrameModel::Watch { target, watcher });
            let now = after.wire_watches[key];
            &&& after.wire_watches.dom().contains(key)
            &&& now.watchers.contains(watcher)
            &&& !known ==> now.watchers == seq![watcher] && now.wire_watcher_id is None && r
                == Ok::<DeliveryModel<S, R>, ReadEnd>(DeliveryModel::Watch { target })
            &&& known ==> r == Ok::<DeliveryModel<S, R>, ReadEnd>(DeliveryModel::Nothing)
                && now.wire_watcher_id == held.wire_watcher_id && now.watchers == (
            if held.watchers.contains(watcher) {
                held.watchers
            } else {
                held.watchers + seq![watcher]
            })
            &&& other != key ==> after.wire_watches.dom().contains(other)
                == endpoint.wire_watches.dom().contains(other) && after.wire_watches[other]
                == endpoint.wire_watches[other]
            &&& after == (EndpointModel { wire_watches: after.wire_watches, ..endpoint })
        }),
        ({
            let key = WireWatchKey { peer, target };
            let known = endpoint.wire_watches.dom().contains(key);
            let held = endpoint.wire_watches[key];
            let (after, r) = endpoint.delivering(peer, FrameModel::Unwatch { target, watcher });
            let left = held.watchers.filter(|a: ActorId| a != watcher);
            &&& r == Ok::<DeliveryModel<S, R>, ReadEnd>(DeliveryModel::Nothing)
            &&& !known ==> after == endpoint
            &&& known && left.len() > 0 ==> after.wire_watches == endpoint.wire_watches.insert(
                key,
                WireWatchModel { wire_watcher_id: held.wire_watcher_id, watchers: left },
            ) && after.released == endpoint.released
            &&& known && left.len() == 0 ==> after.wire_watches == endpoint.wire_watches.remove(key)
            &&& known && left.len() == 0 ==> after.released == (match held.wire_watcher_id {
                Some(wire_watcher_id) => endpoint.released.insert(
                    crate::cluster::watch::RegisteredWatch { target, wire_watcher_id },
                ),
                None => endpoint.released,
            })
            &&& after == (EndpointModel {
                wire_watches: after.wire_watches,
                released: after.released,
                ..endpoint
            })
        }),
{
    let key = WireWatchKey { peer, target };
    let held = endpoint.wire_watches[key];
    let after = endpoint.delivering(peer, FrameModel::Watch { target, watcher }).0;
    assert(held.watchers.push(watcher) =~= held.watchers + seq![watcher]);
    if !endpoint.wire_watches.dom().contains(key) {
        assert(after.wire_watches[key].watchers[0] == watcher);
    } else if !held.watchers.contains(watcher) {
        assert(after.wire_watches[key].watchers[held.watchers.len() as int] == watcher);
    }
    assert(crate::cluster::watch::is_other_actor(watcher) =~= (|a: ActorId| a != watcher));
}

/// The end of an actor signals its watcher once: where this node holds the watch, the watch goes and
/// the signal is the last one.
pub proof fn a_reported_end_is_signaled_once<H, S, R, D: FailureDetector>(
    endpoint: EndpointModel<H, S, R, D>,
    peer: NodeId,
    target: ActorId,
    watcher: ActorId,
)
    requires
        crate::table::distinct(endpoint.watchers),
    ensures
        ({
            let (after, r) = endpoint.delivering(peer, FrameModel::Terminated { target, watcher });
            let key = crate::cluster::watch::WatchKey { peer, target, watcher };
            let watches = exists|i: int|
                0 <= i < endpoint.watchers.len() && (#[trigger] endpoint.watchers[i]).0 == key;
            &&& r == Ok::<DeliveryModel<S, R>, ReadEnd>(DeliveryModel::Nothing)
            &&& !watches ==> after.signals == endpoint.signals && after.watchers
                == endpoint.watchers
            &&& forall|i: int|
                0 <= i < endpoint.watchers.len() && (#[trigger] endpoint.watchers[i]).0 == key ==> {
                    &&& after.signals == endpoint.signals + seq![
                        (
                            target,
                            crate::watch::Watcher {
                                watcher_id: watcher,
                                handler: endpoint.watchers[i].1,
                            },
                        ),
                    ]
                    &&& after.watchers == endpoint.watchers.remove(i)
                }
            &&& forall|i: int|
                0 <= i < after.watchers.len() ==> (#[trigger] after.watchers[i]).0 != key
        }),
{
    let key = crate::cluster::watch::WatchKey { peer, target, watcher };
    let watchers = endpoint.watchers;
    let after = endpoint.delivering(peer, FrameModel::Terminated { target, watcher }).0;
    if crate::table::has_key(watchers, key) {
        let at = crate::table::key_index(watchers, key);
        assert(watchers[at].0 == key);
    }
    assert forall|i: int| 0 <= i < watchers.len() && (#[trigger] watchers[i]).0 == key implies i
        == crate::table::key_index(watchers, key) && value_of(watchers, key) == Some(
        watchers[i].1,
    ) by {
        crate::table::lemma_key_index(watchers, i);
    }
    assert forall|i: int| 0 <= i < watchers.len() && (#[trigger] watchers[i]).0
        == key implies after.signals =~= endpoint.signals + seq![
        (
            target,
            crate::watch::Watcher { watcher_id: watcher, handler: watchers[i].1 },
        ),
    ] by {
        assert(value_of(watchers, key) == Some(watchers[i].1));
    }
    crate::table::lemma_without(watchers, key);
    assert forall|i: int| 0 <= i < after.watchers.len() implies (#[trigger] after.watchers[i]).0
        != key by {
        if after.watchers[i].0 == key {
            assert(crate::table::has_key(after.watchers, key));
            assert(crate::table::as_map(after.watchers).dom().contains(key));
        }
    }
}

/// A lookup is answered to the node which asked, under its nonce; an answer goes to the lookup it is
/// for, which is settled by it, if the node it was sent to gives it. The same holds of replies, and
/// of the news that there will be none.
pub proof fn answers_find_their_questions<H, S, R, D: FailureDetector>(
    endpoint: EndpointModel<H, S, R, D>,
    peer: NodeId,
    nonce: Nonce,
    key: WireKeyModel,
    result: LookupResult,
    recipient: Option<ActorId>,
    payload: Seq<u8>,
)
    ensures
        ({
            let found = match named_in(endpoint.registrations, key) {
                Named::Found(id) => LookupResult::Found { id },
                Named::NotFound => LookupResult::NotFound,
                Named::TypeMismatch => LookupResult::TypeMismatch,
            };
            endpoint.delivering(peer, FrameModel::Lookup { nonce, key }) == (
                endpoint.sent(peer, FrameModel::LookupReply { nonce, result: found }).0,
                Ok::<DeliveryModel<S, R>, ReadEnd>(DeliveryModel::Nothing),
            )
        }),
        ({
            let (after, r) = endpoint.delivering(peer, FrameModel::LookupReply { nonce, result });
            let asked = value_of(endpoint.lookups, nonce);
            let settles = asked is Some && asked->0.peer == peer;
            &&& settles ==> r == Ok::<DeliveryModel<S, R>, ReadEnd>(
                DeliveryModel::Lookup { sink: asked->0.sink, result },
            ) && after.lookups == without(endpoint.lookups, nonce)
            &&& !settles ==> r == Ok::<DeliveryModel<S, R>, ReadEnd>(DeliveryModel::Nothing)
                && after.lookups == endpoint.lookups
            &&& after == (EndpointModel { lookups: after.lookups, ..endpoint })
        }),
        ({
            let (after, r) = endpoint.delivering(
                peer,
                FrameModel::Reply { nonce, recipient, payload },
            );
            let (dropped, nothing) = endpoint.delivering(
                peer,
                FrameModel::ReplyDropped { nonce, recipient },
            );
            let settles = endpoint.replies.dom().contains(nonce) && endpoint.replies[nonce].peer
                == Some(peer);
            &&& settles ==> r == Ok::<DeliveryModel<S, R>, ReadEnd>(
                DeliveryModel::Reply { reply: endpoint.replies[nonce], payload },
            ) && after.replies == endpoint.replies.remove(nonce)
            &&& !settles ==> r == Ok::<DeliveryModel<S, R>, ReadEnd>(DeliveryModel::Nothing)
                && after.replies == endpoint.replies
            &&& after == (EndpointModel { replies: after.replies, ..endpoint })
            &&& dropped == after
            &&& nothing == Ok::<DeliveryModel<S, R>, ReadEnd>(DeliveryModel::Nothing)
        }),
{
}

/// Every frame counts as a heartbeat of its peer, and of no other, if the peer is attended to at all.
/// Bytes which are no frame poison the connection, and its end closes it.
pub proof fn every_frame_is_a_heartbeat<H, S, R, D: FailureDetector>(
    endpoint: EndpointModel<H, S, R, D>,
    peer: NodeId,
    other: NodeId,
    received: Result<Option<Seq<u8>>, TransportError>,
    at: u128,
)
    ensures
        ({
            let heard = endpoint.heard(peer, at);
            &&& heard.liveness.dom() == endpoint.liveness.dom()
            &&& other != peer ==> heard.liveness[other] == endpoint.liveness[other]
            &&& endpoint.liveness.dom().contains(peer) ==> heard.liveness[peer] == (PeerLiveness {
                detector: endpoint.liveness[peer].detector.heard(at),
                holders: endpoint.liveness[peer].holders,
                deliveries: endpoint.liveness[peer].deliveries,
            })
            &&& heard == (EndpointModel { liveness: heard.liveness, ..endpoint })
        }),
        received is Err || received == Ok::<Option<Seq<u8>>, TransportError>(None)
            ==> endpoint.reading(peer, received, at) == (
            endpoint,
            Err::<DeliveryModel<S, R>, ReadEnd>(ReadEnd::Closed),
        ),
        received matches Ok(Some(bytes)) ==> {
            &&& Frame::read(bytes, 0) is Err ==> endpoint.reading(peer, received, at) == (
                endpoint,
                Err::<DeliveryModel<S, R>, ReadEnd>(ReadEnd::Poisoned),
            )
            &&& Frame::read(bytes, 0) matches Ok(read) ==> endpoint.reading(peer, received, at)
                == endpoint.taking(peer, read.0, at)
        },
{
    assert(endpoint.heard(peer, at).liveness.dom() =~= endpoint.liveness.dom());
}

/// A lookup finds the first actor registered under its name and type; a name which only other types
/// are registered under is a mismatch, and any other is not found.
pub proof fn a_lookup_goes_by_name_and_type(
    registrations: Seq<WireRegistrationModel>,
    key: WireKeyModel,
)
    ensures
        ({
            let under = exists|i: int|
                0 <= i < registrations.len() && (#[trigger] registrations[i]).key == key;
            let named = exists|i: int|
                0 <= i < registrations.len() && (#[trigger] registrations[i]).key.name == key.name;
            &&& named_in(registrations, key) is Found <==> under
            &&& named_in(registrations, key) is TypeMismatch <==> named && !under
            &&& named_in(registrations, key) is NotFound <==> !named
            &&& forall|i: int|
                0 <= i < registrations.len() && (#[trigger] registrations[i]).key == key && (forall|
                    j: int,
                |
                    0 <= j < i ==> (#[trigger] registrations[j]).key != key) ==> named_in(
                    registrations,
                    key,
                ) == Named::Found(registrations[i].id)
        }),
{
    let under = crate::cluster::registry::is_under(key);
    let named = crate::cluster::registry::is_named(key.name);
    crate::seqs::lemma_first_some(registrations, under);
    crate::seqs::lemma_first_some(registrations, named);
    assert forall|i: int| 0 <= i < registrations.len() implies under(#[trigger] registrations[i])
        == (registrations[i].key == key) && named(registrations[i]) == (registrations[i].key.name
        == key.name) by {}
    assert forall|i: int|
        0 <= i < registrations.len() && (#[trigger] registrations[i]).key == key && (forall|j: int|
            0 <= j < i ==> (#[trigger] registrations[j]).key != key) implies named_in(
        registrations,
        key,
    ) == Named::Found(registrations[i].id) by {
        assert(crate::seqs::is_first(registrations, under, i));
        crate::seqs::lemma_first_found(registrations, under, i);
    }
}

} // verus!
