//! Who may talk to this node. An unproven address reaches nothing, a dead incarnation is refused, a
//! member is let in, and a joining node becomes a member of a cluster this node is in.

use vstd::prelude::*;

use crate::addr::SocketAddr;
use crate::cluster::connect::{binds, handshake_in, identity_binds, received_view, recv_handshake,
    ConnectError};
use crate::cluster::coordinator::Lifecycle;
use crate::cluster::endpoint::{Endpoint, EndpointModel};
use crate::cluster::failure::{counted, FailureDetector, FailureDetectorFactory, PeerLiveness};
use crate::cluster::frame::{Frame, FrameModel, Handshake, HandshakeIntent, RefusalReason};
use crate::cluster::membership::{is_oldest, lemma_oldest_exists, MemberEntry, MemberState,
    MembershipModel};
use crate::cluster::transport::{PeerIdentity, TransportError};
use crate::ids::NodeId;
use crate::table::{as_map, distinct, has_key, key_index, lemma_key_index, lemma_put, put, value_of};
use crate::wire::Wire;

verus! {

/// Whether a connection is let in. A spoofed identity gets no answer, so its connection is dropped
/// rather than refused.
#[derive(Debug, Clone, Copy, PartialEq, Eq, Structural)]
pub enum Admission {
    Admit,
    Refuse(RefusalReason),
    Drop,
}

impl<H, S, R, D: FailureDetector> EndpointModel<H, S, R, D> {
    /// One more or, for `false`, one less reader on a peer.
    pub open spec fn held(self, peer: NodeId, take: bool) -> EndpointModel<H, S, R, D> {
        if self.liveness.dom().contains(peer) {
            match counted(self.liveness[peer].holders, take) {
                Some(holders) => EndpointModel {
                    liveness: self.liveness.insert(
                        peer,
                        PeerLiveness { holders, ..self.liveness[peer] },
                    ),
                    ..self
                },
                None => self,
            }
        } else {
            self
        }
    }

    /// The peer let in: its liveness is followed and its reader holds it.
    pub open spec fn let_in(self, peer: NodeId, at: u128) -> EndpointModel<H, S, R, D> {
        self.armed(peer, at).held(peer, true)
    }

    /// The peer a member, which is gossiped if it is news.
    pub open spec fn joined(self, peer: NodeId, at: u128) -> EndpointModel<H, S, R, D> {
        let added = EndpointModel { membership: self.membership.added_up(peer, at), ..self };
        if self.membership.admits(peer) {
            added.pushed_gossip().let_in(peer, at)
        } else {
            added.let_in(peer, at)
        }
    }

    /// The admission of a dialing peer. A joining incarnation supersedes an older one at its
    /// address, and one as old as the member there is dead.
    pub open spec fn inbound(
        self,
        peer: NodeId,
        intent: HandshakeIntent,
        identity: Option<PeerIdentity>,
        at: u128,
    ) -> (EndpointModel<H, S, R, D>, Admission) {
        if self.is_downed() || !binds(identity, peer.addr.spec_ip()) {
            (self, Admission::Drop)
        } else if self.membership.is_down(peer) {
            (self, Admission::Refuse(RefusalReason::Down))
        } else {
            match intent {
                HandshakeIntent::Member => if self.membership.is_up(peer) {
                    (self.let_in(peer, at), Admission::Admit)
                } else {
                    (self, Admission::Refuse(RefusalReason::UnknownMember))
                },
                HandshakeIntent::Join => if self.coordinator.lifecycle != Lifecycle::Formed {
                    (self, Admission::Refuse(RefusalReason::NoCluster))
                } else {
                    match self.membership.up_member_at(peer.addr) {
                        Some(previous) if previous != peer => if previous.incarnation.0
                            < peer.incarnation.0 {
                            (self.dead(previous, at).joined(peer, at), Admission::Admit)
                        } else {
                            (self.dead(peer, at), Admission::Refuse(RefusalReason::Down))
                        },
                        _ => (self.joined(peer, at), Admission::Admit),
                    }
                },
            }
        }
    }

    /// Why a peer which was dialed is not talked to; membership is its own bookkeeping.
    pub open spec fn outbound_refusal(
        self,
        peer: NodeId,
        dialed: SocketAddr,
        identity: Option<PeerIdentity>,
    ) -> Option<ConnectError> {
        if self.is_downed() {
            Some(ConnectError::SelfDowned)
        } else {
            self.answer_refusal(peer, dialed, identity)
        }
    }

    /// Why a node which answered a dial is not the one which was dialed, or is dead.
    pub open spec fn answer_refusal(
        self,
        peer: NodeId,
        dialed: SocketAddr,
        identity: Option<PeerIdentity>,
    ) -> Option<ConnectError> {
        if peer.addr != dialed {
            Some(ConnectError::AddressMismatch { advertised: peer.addr, dialed })
        } else if !binds(identity, peer.addr.spec_ip()) {
            Some(ConnectError::Identity)
        } else if self.membership.is_down(peer) {
            Some(ConnectError::Dead)
        } else {
            None
        }
    }
}

impl<H, S, R, D: FailureDetector, F: FailureDetectorFactory<D>> Endpoint<H, S, R, D, F> {
    /// Follows a peer's liveness and holds it for a reader.
    fn let_in(&mut self, peer: NodeId, at: u128)
        requires
            old(self).wf(),
        ensures
            final(self).wf(),
            final(self)@ == old(self)@.let_in(peer, at),
            final(self).spec_detectors() == old(self).spec_detectors(),
    {
        self.track_liveness(peer, at);
        let ghost before = self@;
        let _ = self.liveness.hold(peer, true);
        assert(self@ =~= before.held(peer, true));
    }

    /// Lets go of a peer its reader held.
    pub fn release_reader(&mut self, peer: NodeId)
        requires
            old(self).wf(),
        ensures
            final(self).wf(),
            final(self)@ == old(self)@.held(peer, false),
    {
        let ghost before = self@;
        let _ = self.liveness.hold(peer, false);
        assert(self@ =~= before.held(peer, false));
    }

    /// Decides on a peer which dialed.
    pub fn admit_inbound(
        &mut self,
        peer: NodeId,
        intent: HandshakeIntent,
        identity: &Option<PeerIdentity>,
        at: u128,
    ) -> (admission: Admission)
        requires
            old(self).wf(),
        ensures
            final(self).wf(),
            final(self)@ == old(self)@.inbound(peer, intent, *identity, at).0,
            admission == old(self)@.inbound(peer, intent, *identity, at).1,
            final(self).spec_detectors() == old(self).spec_detectors(),
    {
        if self.downed() {
            return Admission::Drop;
        }
        if !identity_binds(peer, identity) {
            return Admission::Drop;
        }
        if self.membership.is_down(peer) {
            return Admission::Refuse(RefusalReason::Down);
        }
        match intent {
            HandshakeIntent::Member => {
                if self.membership.is_up(peer) {
                    self.let_in(peer, at);
                    Admission::Admit
                } else {
                    Admission::Refuse(RefusalReason::UnknownMember)
                }
            },
            HandshakeIntent::Join => {
                if !self.formed() {
                    return Admission::Refuse(RefusalReason::NoCluster);
                }
                if let Some(previous) = self.membership.up_member_at(peer.addr) {
                    if previous != peer {
                        if previous.incarnation.0 < peer.incarnation.0 {
                            self.node_death(previous, at);
                        } else {
                            self.node_death(peer, at);
                            return Admission::Refuse(RefusalReason::Down);
                        }
                    }
                }
                if self.membership.add_up(peer, at) {
                    self.push_gossip();
                }
                self.let_in(peer, at);
                Admission::Admit
            },
        }
    }

    /// Decides on a peer which was dialed and answered.
    pub fn admit_outbound(
        &mut self,
        peer: NodeId,
        dialed: SocketAddr,
        identity: &Option<PeerIdentity>,
        at: u128,
    ) -> (r: Result<(), ConnectError>)
        requires
            old(self).wf(),
        ensures
            final(self).wf(),
            match old(self)@.outbound_refusal(peer, dialed, *identity) {
                Some(error) => r == Err::<(), ConnectError>(error) && final(self)@ == old(self)@,
                None => r == Ok::<(), ConnectError>(()) && final(self)@ == old(self)@.let_in(
                    peer,
                    at,
                ),
            },
            final(self).spec_detectors() == old(self).spec_detectors(),
    {
        if self.downed() {
            return Err(ConnectError::SelfDowned);
        }
        if let Err(error) = self.check_answer(peer, dialed, identity) {
            return Err(error);
        }
        self.let_in(peer, at);
        Ok(())
    }

    /// Whether a node which answered is the one which was dialed, and alive.
    pub fn check_answer(
        &self,
        peer: NodeId,
        dialed: SocketAddr,
        identity: &Option<PeerIdentity>,
    ) -> (r: Result<(), ConnectError>)
        requires
            self.wf(),
        ensures
            match self@.answer_refusal(peer, dialed, *identity) {
                Some(error) => r == Err::<(), ConnectError>(error),
                None => r == Ok::<(), ConnectError>(()),
            },
    {
        if peer.addr != dialed {
            return Err(ConnectError::AddressMismatch { advertised: peer.addr, dialed });
        }
        if !identity_binds(peer, identity) {
            return Err(ConnectError::Identity);
        }
        if self.membership.is_down(peer) {
            return Err(ConnectError::Dead);
        }
        Ok(())
    }
}

/// What is done with a connection once its first frame is in.
#[derive(Debug)]
pub enum Accepted {
    /// Close it without a word.
    Close(Option<ConnectError>),
    /// Send the refusal and wait for the peer to close, which proves it was read.
    Refuse(Vec<u8>),
    /// Send the frames, the handshake first, then read from the peer.
    Admit { peer: NodeId, frames: Vec<Vec<u8>> },
}

pub ghost enum AcceptedModel {
    Close(Option<ConnectError>),
    Refuse(Seq<u8>),
    Admit { peer: NodeId, frames: Seq<Seq<u8>> },
}

pub open spec fn byte_views(frames: Seq<Vec<u8>>) -> Seq<Seq<u8>> {
    frames.map_values(|bytes: Vec<u8>| bytes@)
}

impl View for Accepted {
    type V = AcceptedModel;

    open spec fn view(&self) -> AcceptedModel {
        match self {
            Accepted::Close(error) => AcceptedModel::Close(*error),
            Accepted::Refuse(bytes) => AcceptedModel::Refuse(bytes@),
            Accepted::Admit { peer, frames } => AcceptedModel::Admit {
                peer: *peer,
                frames: byte_views(frames@),
            },
        }
    }
}

pub open spec fn encoded_frames(frames: Seq<FrameModel>) -> Seq<Seq<u8>> {
    frames.map_values(|frame: FrameModel| Frame::encoding(frame))
}

/// The frames as bytes, appended to what is there.
fn encode_frames(encoded: &mut Vec<Vec<u8>>, frames: Vec<Frame>)
    ensures
        byte_views(final(encoded)@) == byte_views(old(encoded)@) + encoded_frames(frames.deep_view()),
{
    let ghost all = frames.deep_view();
    let ghost before = byte_views(encoded@);
    let mut rest = frames;
    let ghost mut i: int = 0;
    assert(rest.deep_view() =~= all.skip(0));
    assert(byte_views(encoded@) =~= before + encoded_frames(all.take(0)));
    while rest.len() > 0
        invariant
            0 <= i <= all.len(),
            rest.deep_view() == all.skip(i),
            byte_views(encoded@) == before + encoded_frames(all.take(i)),
        decreases rest@.len(),
    {
        let ghost pending = rest.deep_view();
        let ghost so_far = byte_views(encoded@);
        assert(pending.len() == rest@.len());
        let frame = rest.remove(0);
        let bytes = frame.encode_into(Vec::new());
        encoded.push(bytes);
        proof {
            assert(frame.deep_view() == pending[0]);
            assert(pending[0] == all[i]);
            assert(rest.deep_view() =~= pending.remove(0));
            assert(pending.remove(0) =~= all.skip(i + 1));
            assert(byte_views(encoded@) =~= so_far.push(bytes@));
            assert(encoded_frames(all.take(i + 1)) =~= encoded_frames(all.take(i)).push(
                Frame::encoding(all[i]),
            ));
            assert(byte_views(encoded@) =~= before + encoded_frames(all.take(i + 1)));
            i = i + 1;
        }
    }
    assert(rest.deep_view().len() == 0);
    assert(all.take(i) =~= all);
}

impl<H, S, R, D: FailureDetector> EndpointModel<H, S, R, D> {
    /// What this node opens a connection it accepted with.
    pub open spec fn greeting(self) -> Seq<FrameModel> {
        seq![FrameModel::Handshake(Handshake::of(self.node, HandshakeIntent::Member))]
            + self.handshake_gossip() + self.statements()
    }

    /// A connection which opened with these bytes, accepted or not.
    pub open spec fn accepting(
        self,
        received: Result<Option<Seq<u8>>, TransportError>,
        identity: Option<PeerIdentity>,
        at: u128,
    ) -> (EndpointModel<H, S, R, D>, AcceptedModel) {
        match handshake_in(received) {
            Err(error) => (self, AcceptedModel::Close(Some(error))),
            Ok((peer, intent)) => {
                let (after, admission) = self.inbound(peer, intent, identity, at);
                (
                    after,
                    match admission {
                        Admission::Drop => AcceptedModel::Close(None),
                        Admission::Refuse(reason) => AcceptedModel::Refuse(
                            Frame::encoding(FrameModel::Refused { reason }),
                        ),
                        Admission::Admit => AcceptedModel::Admit {
                            peer,
                            frames: encoded_frames(after.greeting()),
                        },
                    },
                )
            },
        }
    }
}

impl<H, S, R, D: FailureDetector, F: FailureDetectorFactory<D>> Endpoint<H, S, R, D, F> {
    /// Decides on a connection by its first frame. The admission comes before the answer, so the
    /// snapshot which follows already lists a joining peer.
    pub fn accept(
        &mut self,
        received: Result<Option<Vec<u8>>, TransportError>,
        identity: &Option<PeerIdentity>,
        at: u128,
    ) -> (accepted: Accepted)
        requires
            old(self).wf(),
        ensures
            final(self).wf(),
            final(self)@ == old(self)@.accepting(received_view(received), *identity, at).0,
            accepted@ == old(self)@.accepting(received_view(received), *identity, at).1,
            final(self).spec_detectors() == old(self).spec_detectors(),
    {
        match recv_handshake(received) {
            Err(error) => Accepted::Close(Some(error)),
            Ok((peer, intent)) => match self.admit_inbound(peer, intent, identity, at) {
                Admission::Drop => Accepted::Close(None),
                Admission::Refuse(reason) => {
                    Accepted::Refuse(Frame::Refused { reason }.encode_into(Vec::new()))
                },
                Admission::Admit => {
                    let mut opening: Vec<Frame> = Vec::new();
                    opening.push(
                        Frame::Handshake(Handshake::new(self.node, HandshakeIntent::Member)),
                    );
                    assert(opening.deep_view() =~= seq![
                        FrameModel::Handshake(Handshake::of(self.node, HandshakeIntent::Member)),
                    ]);
                    let mut frames: Vec<Vec<u8>> = Vec::new();
                    encode_frames(&mut frames, opening);
                    encode_frames(&mut frames, self.handshake_frames());
                    encode_frames(&mut frames, self.reachability_snapshot_frames());
                    assert(byte_views(frames@) =~= encoded_frames(self@.greeting()));
                    Accepted::Admit { peer, frames }
                },
            },
        }
    }

    /// An inbound connection is established: a node of this protocol is at the address.
    pub fn established(&mut self, peer: NodeId)
        requires
            old(self).wf(),
        ensures
            final(self).wf(),
            final(self)@ == (EndpointModel {
                outbound: crate::cluster::outbound::OutboundModel {
                    refused: old(self)@.outbound.refused.remove(peer.addr),
                    ..old(self)@.outbound
                },
                ..old(self)@
            }),
    {
        self.unrefuse(peer.addr);
    }
}

/// Nothing but a member or a joining node is let in, and never a dead incarnation, an unproven
/// address, or anyone once this node is downed.
pub proof fn only_live_proven_peers_are_let_in<H, S, R, D: FailureDetector>(
    endpoint: EndpointModel<H, S, R, D>,
    peer: NodeId,
    intent: HandshakeIntent,
    identity: Option<PeerIdentity>,
    at: u128,
)
    requires
        endpoint.inbound(peer, intent, identity, at).1 is Admit,
    ensures
        !endpoint.is_downed(),
        binds(identity, peer.addr.spec_ip()),
        !endpoint.membership.is_down(peer),
        intent is Member ==> endpoint.membership.is_up(peer),
        intent is Join ==> endpoint.coordinator.lifecycle == Lifecycle::Formed,
{
}

/// The death of an older incarnation at its address does not make a node dead, nor does it take the
/// node's own entry.
proof fn lemma_survives_a_predecessor(
    membership: MembershipModel,
    previous: NodeId,
    peer: NodeId,
    at: u128,
)
    requires
        membership.wf(),
        previous.incarnation.0 < peer.incarnation.0,
        !membership.is_down(peer),
    ensures
        !membership.downed(previous, at).is_down(peer),
        value_of(membership.downed(previous, at).members, peer) == value_of(
            membership.members,
            peer,
        ),
        distinct(membership.downed(previous, at).members),
{
    let after = membership.downed(previous, at);
    lemma_put(membership.down, previous.addr, previous);
    let down = if membership.raises(previous) {
        put(membership.down, previous.addr, previous)
    } else {
        membership.down
    };
    assert(value_of(down, peer.addr) == as_value(as_map(down), peer.addr));
    assert(value_of(membership.down, peer.addr) == as_value(
        as_map(membership.down),
        peer.addr,
    ));
    if has_key(after.down, peer.addr) {
        let j = key_index(after.down, peer.addr);
        if down.len() > membership.cap {
            let oldest = lemma_oldest_exists(down);
            let gone = choose|i: int| is_oldest(down, i);
            let a = if j < gone { j } else { j + 1 };
            assert(after.down[j] == down[a]);
            lemma_key_index(down, a);
        } else {
            lemma_key_index(down, j);
        }
        assert(value_of(after.down, peer.addr) == value_of(down, peer.addr));
    }
    let entry = MemberEntry { state: MemberState::Down, changed_at: at };
    lemma_put(membership.members, previous, entry);
    let listed = put(membership.members, previous, entry);
    assert(value_of(listed, peer) == as_value(as_map(listed), peer));
    assert(value_of(membership.members, peer) == as_value(as_map(membership.members), peer));
}

spec fn as_value<K, V>(map: Map<K, V>, key: K) -> Option<V> {
    if map.dom().contains(key) {
        Some(map[key])
    } else {
        None
    }
}

/// A node which joins is a member from then on, unless its own entry outlived the watermark of its
/// death.
pub proof fn a_joining_node_becomes_a_member<H, S, R, D: FailureDetector>(
    endpoint: EndpointModel<H, S, R, D>,
    peer: NodeId,
    identity: Option<PeerIdentity>,
    at: u128,
)
    requires
        endpoint.membership.wf(),
        endpoint.inbound(peer, HandshakeIntent::Join, identity, at).1 is Admit,
        has_key(endpoint.membership.members, peer) ==> endpoint.membership.is_up(peer),
    ensures
        endpoint.inbound(peer, HandshakeIntent::Join, identity, at).0.membership.is_up(peer),
{
    let before = match endpoint.membership.up_member_at(peer.addr) {
        Some(previous) if previous != peer => {
            lemma_survives_a_predecessor(endpoint.membership, previous, peer, at);
            endpoint.membership.downed(previous, at)
        },
        _ => endpoint.membership,
    };
    let entry = MemberEntry { state: MemberState::Up, changed_at: at };
    lemma_put(before.members, peer, entry);
    let listed = put(before.members, peer, entry);
    assert(value_of(listed, peer) == as_value(as_map(listed), peer));
}

/// A connection which is dropped without an answer leaves the endpoint as it was.
pub proof fn a_dropped_peer_leaves_no_trace<H, S, R, D: FailureDetector>(
    endpoint: EndpointModel<H, S, R, D>,
    peer: NodeId,
    intent: HandshakeIntent,
    identity: Option<PeerIdentity>,
    at: u128,
)
    requires
        endpoint.inbound(peer, intent, identity, at).1 is Drop,
    ensures
        endpoint.inbound(peer, intent, identity, at).0 == endpoint,
{
}

/// A refused peer learns why: the refusal it receives carries the reason.
pub proof fn a_refusal_tells_its_reason(reason: RefusalReason)
    ensures
        handshake_in(Ok(Some(Frame::encoding(FrameModel::Refused { reason })))) == Err::<
            (NodeId, HandshakeIntent),
            ConnectError,
        >(ConnectError::Refused(reason)),
{
    let frame = FrameModel::Refused { reason };
    crate::cluster::frame::frames_round_trip(frame, Seq::empty());
    assert(Frame::encoding(frame) + Seq::<u8>::empty() =~= Frame::encoding(frame));
}

/// Whom an incoming connection lets in. A downed node answers nobody, and nobody who does not prove
/// its address; a dead incarnation is refused as such. A member is let in where the list has it Up. A
/// joining node needs a cluster to join, and comes in unless its address is held by an incarnation
/// which is as young.
pub proof fn a_connection_is_judged<H, S, R, D: FailureDetector>(
    endpoint: EndpointModel<H, S, R, D>,
    peer: NodeId,
    intent: HandshakeIntent,
    identity: Option<PeerIdentity>,
    at: u128,
)
    ensures
        ({
            let (after, admission) = endpoint.inbound(peer, intent, identity, at);
            let silent = endpoint.coordinator.lifecycle == Lifecycle::Downed || !binds(
                identity,
                peer.addr.spec_ip(),
            );
            let dead = endpoint.membership.is_down(peer);
            let formed = endpoint.coordinator.lifecycle == Lifecycle::Formed;
            let holder = endpoint.membership.up_member_at(peer.addr);
            let held = holder is Some && holder != Some(peer) && holder->0.incarnation.0
                >= peer.incarnation.0;
            &&& admission is Drop <==> silent
            &&& admission == Admission::Refuse(RefusalReason::Down) <==> !silent && (dead || (intent
                is Join && formed && held))
            &&& admission == Admission::Refuse(RefusalReason::UnknownMember) <==> !silent && !dead
                && intent is Member && !endpoint.membership.is_up(peer)
            &&& admission == Admission::Refuse(RefusalReason::NoCluster) <==> !silent && !dead
                && intent is Join && !formed
            &&& admission is Admit <==> !silent && !dead && match intent {
                HandshakeIntent::Member => endpoint.membership.is_up(peer),
                HandshakeIntent::Join => formed && !held,
            }
            &&& !(admission is Admit) && !(!silent && !dead && intent is Join && formed && held)
                ==> after == endpoint
        }),
{
}

/// A peer which is let in is attended to from then on: it is armed if it was not, and held once more.
pub proof fn who_is_let_in_is_attended_to<H, S, R, D: FailureDetector>(
    endpoint: EndpointModel<H, S, R, D>,
    peer: NodeId,
    other: NodeId,
    at: u128,
)
    ensures
        ({
            let after = endpoint.let_in(peer, at);
            let known = endpoint.liveness.dom().contains(peer);
            let holders = if known {
                endpoint.liveness[peer].holders
            } else {
                0
            };
            &&& after.liveness.dom().contains(peer)
            &&& after.liveness[peer].holders == (if holders == u64::MAX {
                holders as int
            } else {
                holders + 1
            })
            &&& after.liveness[peer].detector == (if known {
                endpoint.liveness[peer].detector
            } else {
                endpoint.fresh.heard(at)
            })
            &&& other != peer ==> after.liveness.dom().contains(other)
                == endpoint.liveness.dom().contains(other) && after.liveness[other]
                == endpoint.liveness[other]
            &&& after == (EndpointModel { liveness: after.liveness, ..endpoint })
            &&& after.held(peer, false).liveness[peer].holders == after.liveness[peer].holders - 1
        }),
{
}

/// A node which was dialed is taken for the peer if it is at the address dialed, proves it and is not
/// dead; a downed node takes nobody.
pub proof fn a_dialed_node_is_judged<H, S, R, D: FailureDetector>(
    endpoint: EndpointModel<H, S, R, D>,
    peer: NodeId,
    dialed: SocketAddr,
    identity: Option<PeerIdentity>,
)
    ensures
        ({
            let proven = binds(identity, peer.addr.spec_ip());
            let dead = endpoint.membership.is_down(peer);
            let downed = endpoint.coordinator.lifecycle == Lifecycle::Downed;
            let refusal = endpoint.outbound_refusal(peer, dialed, identity);
            &&& refusal is None <==> !downed && peer.addr == dialed && proven && !dead
            &&& downed ==> refusal == Some(ConnectError::SelfDowned)
            &&& !downed && peer.addr != dialed ==> refusal == Some(
                ConnectError::AddressMismatch { advertised: peer.addr, dialed },
            )
            &&& !downed && peer.addr == dialed && !proven ==> refusal == Some(
                ConnectError::Identity,
            )
            &&& !downed && peer.addr == dialed && proven && dead ==> refusal == Some(
                ConnectError::Dead,
            )
            &&& !downed ==> endpoint.answer_refusal(peer, dialed, identity) == refusal
        }),
{
}

/// What an admitted peer is sent: this node's handshake, its member list with the watermarks, and its
/// statements, in that order. The handshake is understood if the advertised address travels whole.
pub proof fn a_greeting_introduces_this_node<H, S, R, D: FailureDetector>(
    endpoint: EndpointModel<H, S, R, D>,
    i: int,
)
    ensures
        ({
            let frames = endpoint.greeting();
            let list = endpoint.handshake_gossip();
            let statements = endpoint.statements();
            &&& frames.len() == 1 + list.len() + statements.len()
            &&& NodeId::is_whole(endpoint.node) ==> handshake_in(
                Ok(Some(Frame::encoding(frames[0]))),
            ) == Ok::<(NodeId, HandshakeIntent), ConnectError>(
                (endpoint.node, HandshakeIntent::Member),
            )
            &&& frames[0] is Handshake
            &&& 0 <= i < list.len() ==> frames[1 + i] == list[i]
            &&& 0 <= i < statements.len() ==> frames[1 + list.len() + i] == statements[i]
        }),
{
    let own = FrameModel::Handshake(Handshake::of(endpoint.node, HandshakeIntent::Member));
    assert(endpoint.greeting()[0] == own);
    if NodeId::is_whole(endpoint.node) {
        crate::cluster::connect::handshakes_are_understood(endpoint.node, HandshakeIntent::Member);
    }
}

/// An incoming connection is answered as it is judged: bytes which are no handshake close it with the
/// error, a drop closes it silently, a refusal carries its reason, and an admitted peer is greeted,
/// frame by frame.
pub proof fn a_handshake_is_answered<H, S, R, D: FailureDetector>(
    endpoint: EndpointModel<H, S, R, D>,
    received: Result<Option<Seq<u8>>, TransportError>,
    identity: Option<PeerIdentity>,
    at: u128,
)
    ensures
        handshake_in(received) matches Err(error) ==> endpoint.accepting(received, identity, at) == (
            endpoint,
            AcceptedModel::Close(Some(error)),
        ),
        handshake_in(received) matches Ok((peer, intent)) ==> {
            let (after, answer) = endpoint.accepting(received, identity, at);
            let (judged, admission) = endpoint.inbound(peer, intent, identity, at);
            let greeting = judged.greeting();
            &&& after == judged
            &&& admission is Drop ==> answer == AcceptedModel::Close(None)
            &&& admission matches Admission::Refuse(reason) ==> answer == AcceptedModel::Refuse(
                Frame::encoding(FrameModel::Refused { reason }),
            )
            &&& admission is Admit ==> answer == (AcceptedModel::Admit {
                peer,
                frames: Seq::new(greeting.len(), |i: int| Frame::encoding(greeting[i])),
            })
        },
{
    if let Ok((peer, intent)) = handshake_in(received) {
        let (judged, admission) = endpoint.inbound(peer, intent, identity, at);
        if admission is Admit {
            let greeting = judged.greeting();
            assert(encoded_frames(greeting) =~= Seq::new(
                greeting.len(),
                |i: int| Frame::encoding(greeting[i]),
            ));
        }
    }
}

} // verus!
