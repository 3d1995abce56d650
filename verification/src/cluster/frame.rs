//! The frames exchanged between nodes and their wire format.

use vstd::prelude::*;

use crate::cluster::discovery::{LookupResult, WireKey, WireKeyModel};
use crate::cluster::membership::{MemberState, WireMember};
use crate::cluster::reachability::WireReachability;
use crate::cluster::receptionist::{WireRegistration, WireRegistrationModel};
use crate::cluster::reply::ReplyTag;
use crate::ids::{ActorId, Nonce, NodeId};
use crate::wire::{holds, lemma_holds_add, map_read, varint, DecodeError, Wire};

verus! {

pub const PROTOCOL_MAGIC: u32 = 0x574C_545A;

pub const PROTOCOL_VERSION: u16 = 1;

/// What a connecting node wants.
#[derive(Debug, Clone, Copy, PartialEq, Eq, Structural)]
pub enum HandshakeIntent {
    /// To talk as a member.
    Member,
    /// To become a member.
    Join,
}

/// Why a handshake is refused. An unknown member and a missing cluster are worth retrying.
#[derive(Debug, Clone, Copy, PartialEq, Eq, Structural)]
pub enum RefusalReason {
    /// Not a member of this cluster.
    UnknownMember,
    /// A dead node incarnation.
    Down,
    /// Not a member of any cluster.
    NoCluster,
}

/// The first frame on a connection.
#[derive(Debug, Clone, Copy, PartialEq, Eq, Structural)]
pub struct Handshake {
    pub magic: u32,
    pub protocol_version: u16,
    pub node: NodeId,
    pub intent: HandshakeIntent,
}

/// A handshake of another protocol.
#[derive(Debug, Clone, Copy, PartialEq, Eq, Structural)]
pub enum HandshakeError {
    /// Another protocol altogether.
    Magic(u32),
    /// An unsupported version of this protocol.
    ProtocolVersion(u16),
}

impl Handshake {
    pub open spec fn of(node: NodeId, intent: HandshakeIntent) -> Handshake {
        Handshake { magic: PROTOCOL_MAGIC, protocol_version: PROTOCOL_VERSION, node, intent }
    }

    /// The handshake of this protocol.
    pub fn new(node: NodeId, intent: HandshakeIntent) -> (handshake: Self)
        ensures
            handshake == Handshake::of(node, intent),
    {
        Handshake { magic: PROTOCOL_MAGIC, protocol_version: PROTOCOL_VERSION, node, intent }
    }

    pub open spec fn validated(self) -> Result<(NodeId, HandshakeIntent), HandshakeError> {
        if self.magic != PROTOCOL_MAGIC {
            Err(HandshakeError::Magic(self.magic))
        } else if self.protocol_version != PROTOCOL_VERSION {
            Err(HandshakeError::ProtocolVersion(self.protocol_version))
        } else {
            Ok((self.node, self.intent))
        }
    }

    /// The node and its intent, if the peer speaks this version of this protocol.
    pub fn validate(self) -> (r: Result<(NodeId, HandshakeIntent), HandshakeError>)
        ensures
            r == self.validated(),
    {
        if self.magic != PROTOCOL_MAGIC {
            return Err(HandshakeError::Magic(self.magic));
        }
        if self.protocol_version != PROTOCOL_VERSION {
            return Err(HandshakeError::ProtocolVersion(self.protocol_version));
        }
        Ok((self.node, self.intent))
    }
}

/// What orders a frame among others: frames of one key keep their order.
#[derive(Debug, Clone, Copy, PartialEq, Eq, Structural)]
pub enum StreamKey {
    Actor(ActorId),
    Nonce(Nonce),
}

/// What nodes send each other.
#[derive(Debug, Clone, PartialEq, Eq)]
pub enum Frame {
    Handshake(Handshake),
    Message { target: ActorId, reply_tags: Vec<ReplyTag>, payload: Vec<u8> },
    Watch { target: ActorId, watcher: ActorId },
    Unwatch { target: ActorId, watcher: ActorId },
    Terminated { target: ActorId, watcher: ActorId },
    Lookup { nonce: Nonce, key: WireKey },
    LookupReply { nonce: Nonce, result: LookupResult },
    Reply { nonce: Nonce, recipient: Option<ActorId>, payload: Vec<u8> },
    ReplyDropped { nonce: Nonce, recipient: Option<ActorId> },
    Gossip { members: Vec<WireMember>, more: bool },
    Refused { reason: RefusalReason },
    Reachability { observations: Vec<WireReachability> },
    Registrations { version: u64, chunk: u32, chunks: u32, entries: Vec<WireRegistration> },
}

/// The contents of a frame.
#[verifier::ext_equal]
pub ghost enum FrameModel {
    Handshake(Handshake),
    Message { target: ActorId, reply_tags: Seq<ReplyTag>, payload: Seq<u8> },
    Watch { target: ActorId, watcher: ActorId },
    Unwatch { target: ActorId, watcher: ActorId },
    Terminated { target: ActorId, watcher: ActorId },
    Lookup { nonce: Nonce, key: WireKeyModel },
    LookupReply { nonce: Nonce, result: LookupResult },
    Reply { nonce: Nonce, recipient: Option<ActorId>, payload: Seq<u8> },
    ReplyDropped { nonce: Nonce, recipient: Option<ActorId> },
    Gossip { members: Seq<WireMember>, more: bool },
    Refused { reason: RefusalReason },
    Reachability { observations: Seq<WireReachability> },
    Registrations { version: u64, chunk: u32, chunks: u32, entries: Seq<WireRegistrationModel> },
}

impl DeepView for Frame {
    type V = FrameModel;

    open spec fn deep_view(&self) -> FrameModel {
        match *self {
            Frame::Handshake(handshake) => FrameModel::Handshake(handshake),
            Frame::Message { target, reply_tags, payload } => FrameModel::Message {
                target,
                reply_tags: reply_tags.deep_view(),
                payload: payload.deep_view(),
            },
            Frame::Watch { target, watcher } => FrameModel::Watch { target, watcher },
            Frame::Unwatch { target, watcher } => FrameModel::Unwatch { target, watcher },
            Frame::Terminated { target, watcher } => FrameModel::Terminated { target, watcher },
            Frame::Lookup { nonce, key } => FrameModel::Lookup { nonce, key: key.deep_view() },
            Frame::LookupReply { nonce, result } => FrameModel::LookupReply { nonce, result },
            Frame::Reply { nonce, recipient, payload } => FrameModel::Reply {
                nonce,
                recipient: recipient.deep_view(),
                payload: payload.deep_view(),
            },
            Frame::ReplyDropped { nonce, recipient } => FrameModel::ReplyDropped {
                nonce,
                recipient: recipient.deep_view(),
            },
            Frame::Gossip { members, more } => FrameModel::Gossip {
                members: members.deep_view(),
                more,
            },
            Frame::Refused { reason } => FrameModel::Refused { reason },
            Frame::Reachability { observations } => FrameModel::Reachability {
                observations: observations.deep_view(),
            },
            Frame::Registrations { version, chunk, chunks, entries } => FrameModel::Registrations {
                version,
                chunk,
                chunks,
                entries: entries.deep_view(),
            },
        }
    }
}

impl FrameModel {
    /// Whether the frame counts against the outbound capacity: messages and replies do, system
    /// frames must never be dropped for it.
    pub open spec fn counted(self) -> bool {
        self is Message || self is Reply
    }

    /// The stream the frame rides: that of the actor it is delivered to. A reply which no actor
    /// awaits rides that of its nonce, and what concerns no delivery rides the control stream.
    pub open spec fn key(self) -> Option<StreamKey> {
        match self {
            FrameModel::Message { target, .. } => Some(StreamKey::Actor(target)),
            FrameModel::Terminated { watcher, .. } => Some(StreamKey::Actor(watcher)),
            FrameModel::Reply { nonce, recipient, .. } => Some(reply_key(nonce, recipient)),
            FrameModel::ReplyDropped { nonce, recipient } => Some(reply_key(nonce, recipient)),
            _ => None,
        }
    }
}

pub open spec fn reply_key(nonce: Nonce, recipient: Option<ActorId>) -> StreamKey {
    match recipient {
        Some(actor) => StreamKey::Actor(actor),
        None => StreamKey::Nonce(nonce),
    }
}

impl Frame {
    /// The encoded frame, in the given buffer whose contents it replaces.
    pub fn encode_into(&self, buffer: Vec<u8>) -> (bytes: Vec<u8>)
        ensures
            bytes@ == Frame::encoding(self.deep_view()),
    {
        let mut bytes = buffer;
        bytes.clear();
        self.put(&mut bytes);
        assert(bytes@ =~= Frame::encoding(self.deep_view()));
        bytes
    }

    /// The length of the encoded frame.
    pub fn encoded_len(&self) -> (len: usize)
        ensures
            len == Frame::encoding(self.deep_view()).len(),
    {
        self.encode_into(Vec::new()).len()
    }

    /// The frame at the front of the bytes.
    pub fn from_bytes(bytes: &[u8]) -> (r: Result<Frame, DecodeError>)
        ensures
            match (r, Frame::read(bytes@, 0)) {
                (Ok(frame), Ok((model, _))) => frame.deep_view() == model,
                (Err(a), Err(b)) => a == b,
                _ => false,
            },
    {
        match Frame::take(bytes, 0) {
            Ok((frame, _)) => Ok(frame),
            Err(e) => Err(e),
        }
    }

    /// Whether the frame counts against the outbound capacity.
    pub fn is_counted(&self) -> (r: bool)
        ensures
            r == self.deep_view().counted(),
    {
        match self {
            Frame::Message { .. } => true,
            Frame::Reply { .. } => true,
            _ => false,
        }
    }

    /// The stream the frame rides, none for the control stream.
    pub fn stream_key(&self) -> (key: Option<StreamKey>)
        ensures
            key == self.deep_view().key(),
    {
        match self {
            Frame::Message { target, .. } => Some(StreamKey::Actor(*target)),
            Frame::Terminated { watcher, .. } => Some(StreamKey::Actor(*watcher)),
            Frame::Reply { nonce, recipient, .. } => Some(reply_stream_key(*nonce, *recipient)),
            Frame::ReplyDropped { nonce, recipient } => Some(reply_stream_key(*nonce, *recipient)),
            _ => None,
        }
    }
}

fn reply_stream_key(nonce: Nonce, recipient: Option<ActorId>) -> (key: StreamKey)
    ensures
        key == reply_key(nonce, recipient),
{
    match recipient {
        Some(actor) => StreamKey::Actor(actor),
        None => StreamKey::Nonce(nonce),
    }
}

/// A frame survives the wire, whatever follows it, if its addresses hold nothing which does not
/// travel.
pub proof fn frames_round_trip(frame: FrameModel, trailing: Seq<u8>)
    requires
        Frame::is_whole(frame),
    ensures
        Frame::read(Frame::encoding(frame) + trailing, 0) == Ok::<(FrameModel, int), DecodeError>(
            (frame, Frame::encoding(frame).len() as int),
        ),
{
    let bytes = Frame::encoding(frame) + trailing;
    assert(holds(bytes, 0, Frame::encoding(frame)));
    Frame::reads_back(bytes, 0, frame);
}

/// Two frames which survive the wire and have the same encoding are the same frame.
pub proof fn encodings_tell_frames_apart(a: FrameModel, b: FrameModel)
    requires
        Frame::is_whole(a),
        Frame::is_whole(b),
        Frame::encoding(a) == Frame::encoding(b),
    ensures
        a == b,
{
    frames_round_trip(a, Seq::empty());
    frames_round_trip(b, Seq::empty());
}

proof fn lemma_variant_reads_back<T: Wire>(s: Seq<u8>, at: int, tag: u32, body: T::V)
    requires
        T::is_whole(body),
        holds(s, at, varint(tag as nat) + T::encoding(body)),
    ensures
        <u32 as Wire>::read(s, at) == Ok::<(u32, int), DecodeError>(
            (tag, at + varint(tag as nat).len()),
        ),
        T::read(s, at + varint(tag as nat).len()) == Ok::<(T::V, int), DecodeError>(
            (body, at + (varint(tag as nat) + T::encoding(body)).len()),
        ),
{
    lemma_holds_add(s, at, varint(tag as nat), T::encoding(body));
    <u32 as Wire>::reads_back(s, at, tag);
    T::reads_back(s, at + varint(tag as nat).len(), body);
}

impl DeepView for HandshakeIntent {
    type V = HandshakeIntent;

    open spec fn deep_view(&self) -> HandshakeIntent {
        *self
    }
}

impl DeepView for RefusalReason {
    type V = RefusalReason;

    open spec fn deep_view(&self) -> RefusalReason {
        *self
    }
}

impl DeepView for Handshake {
    type V = Handshake;

    open spec fn deep_view(&self) -> Handshake {
        *self
    }
}

impl DeepView for MemberState {
    type V = MemberState;

    open spec fn deep_view(&self) -> MemberState {
        *self
    }
}

impl DeepView for WireMember {
    type V = WireMember;

    open spec fn deep_view(&self) -> WireMember {
        *self
    }
}

impl DeepView for WireReachability {
    type V = WireReachability;

    open spec fn deep_view(&self) -> WireReachability {
        *self
    }
}

impl DeepView for ReplyTag {
    type V = ReplyTag;

    open spec fn deep_view(&self) -> ReplyTag {
        *self
    }
}

impl DeepView for LookupResult {
    type V = LookupResult;

    open spec fn deep_view(&self) -> LookupResult {
        *self
    }
}

impl Wire for HandshakeIntent {
    open spec fn encoding(v: HandshakeIntent) -> Seq<u8> {
        match v {
            HandshakeIntent::Member => varint(0),
            HandshakeIntent::Join => varint(1),
        }
    }

    open spec fn read(s: Seq<u8>, at: int) -> Result<(HandshakeIntent, int), DecodeError> {
        match <u32 as Wire>::read(s, at) {
            Ok((tag, mid)) => if tag == 0 {
                Ok((HandshakeIntent::Member, mid))
            } else if tag == 1 {
                Ok((HandshakeIntent::Join, mid))
            } else {
                Err(DecodeError::UnknownVariant)
            },
            Err(e) => Err(e),
        }
    }

    open spec fn is_whole(v: HandshakeIntent) -> bool {
        match v {
            HandshakeIntent::Member => true,
            HandshakeIntent::Join => true,
        }
    }

    proof fn reads_back(s: Seq<u8>, at: int, v: HandshakeIntent) {
        match v {
            HandshakeIntent::Member => {
                <u32 as Wire>::reads_back(s, at, 0);
            },
            HandshakeIntent::Join => {
                <u32 as Wire>::reads_back(s, at, 1);
            },
        }
    }

    proof fn advances(s: Seq<u8>, at: int) {
        <u32 as Wire>::advances(s, at);
    }

    fn put(&self, out: &mut Vec<u8>) {
        match self {
            HandshakeIntent::Member => {
                0u32.put(out);
            },
            HandshakeIntent::Join => {
                1u32.put(out);
            },
        }
        assert(out@ =~= old(out)@ + Self::encoding(self.deep_view()));
    }

    fn take(bytes: &[u8], at: usize) -> (r: Result<(Self, usize), DecodeError>) {
        let (tag, mid) = match u32::take(bytes, at) {
            Ok(r) => r,
            Err(e) => {
                return Err(e);
            },
        };
        proof {
            <u32 as Wire>::advances(bytes@, at as int);
        }
        if tag == 0 {
            Ok((HandshakeIntent::Member, mid))
        } else if tag == 1 {
            Ok((HandshakeIntent::Join, mid))
        } else {
            Err(DecodeError::UnknownVariant)
        }
    }
}

impl Wire for RefusalReason {
    open spec fn encoding(v: RefusalReason) -> Seq<u8> {
        match v {
            RefusalReason::UnknownMember => varint(0),
            RefusalReason::Down => varint(1),
            RefusalReason::NoCluster => varint(2),
        }
    }

    open spec fn read(s: Seq<u8>, at: int) -> Result<(RefusalReason, int), DecodeError> {
        match <u32 as Wire>::read(s, at) {
            Ok((tag, mid)) => if tag == 0 {
                Ok((RefusalReason::UnknownMember, mid))
            } else if tag == 1 {
                Ok((RefusalReason::Down, mid))
            } else if tag == 2 {
                Ok((RefusalReason::NoCluster, mid))
            } else {
                Err(DecodeError::UnknownVariant)
            },
            Err(e) => Err(e),
        }
    }

    open spec fn is_whole(v: RefusalReason) -> bool {
        match v {
            RefusalReason::UnknownMember => true,
            RefusalReason::Down => true,
            RefusalReason::NoCluster => true,
        }
    }

    proof fn reads_back(s: Seq<u8>, at: int, v: RefusalReason) {
        match v {
            RefusalReason::UnknownMember => {
                <u32 as Wire>::reads_back(s, at, 0);
            },
            RefusalReason::Down => {
                <u32 as Wire>::reads_back(s, at, 1);
            },
            RefusalReason::NoCluster => {
                <u32 as Wire>::reads_back(s, at, 2);
            },
        }
    }

    proof fn advances(s: Seq<u8>, at: int) {
        <u32 as Wire>::advances(s, at);
    }

    fn put(&self, out: &mut Vec<u8>) {
        match self {
            RefusalReason::UnknownMember => {
                0u32.put(out);
            },
            RefusalReason::Down => {
                1u32.put(out);
            },
            RefusalReason::NoCluster => {
                2u32.put(out);
            },
        }
        assert(out@ =~= old(out)@ + Self::encoding(self.deep_view()));
    }

    fn take(bytes: &[u8], at: usize) -> (r: Result<(Self, usize), DecodeError>) {
        let (tag, mid) = match u32::take(bytes, at) {
            Ok(r) => r,
            Err(e) => {
                return Err(e);
            },
        };
        proof {
            <u32 as Wire>::advances(bytes@, at as int);
        }
        if tag == 0 {
            Ok((RefusalReason::UnknownMember, mid))
        } else if tag == 1 {
            Ok((RefusalReason::Down, mid))
        } else if tag == 2 {
            Ok((RefusalReason::NoCluster, mid))
        } else {
            Err(DecodeError::UnknownVariant)
        }
    }
}

impl Wire for MemberState {
    open spec fn encoding(v: MemberState) -> Seq<u8> {
        match v {
            MemberState::Up => varint(0),
            MemberState::Down => varint(1),
        }
    }

    open spec fn read(s: Seq<u8>, at: int) -> Result<(MemberState, int), DecodeError> {
        match <u32 as Wire>::read(s, at) {
            Ok((tag, mid)) => if tag == 0 {
                Ok((MemberState::Up, mid))
            } else if tag == 1 {
                Ok((MemberState::Down, mid))
            } else {
                Err(DecodeError::UnknownVariant)
            },
            Err(e) => Err(e),
        }
    }

    open spec fn is_whole(v: MemberState) -> bool {
        match v {
            MemberState::Up => true,
            MemberState::Down => true,
        }
    }

    proof fn reads_back(s: Seq<u8>, at: int, v: MemberState) {
        match v {
            MemberState::Up => {
                <u32 as Wire>::reads_back(s, at, 0);
            },
            MemberState::Down => {
                <u32 as Wire>::reads_back(s, at, 1);
            },
        }
    }

    proof fn advances(s: Seq<u8>, at: int) {
        <u32 as Wire>::advances(s, at);
    }

    fn put(&self, out: &mut Vec<u8>) {
        match self {
            MemberState::Up => {
                0u32.put(out);
            },
            MemberState::Down => {
                1u32.put(out);
            },
        }
        assert(out@ =~= old(out)@ + Self::encoding(self.deep_view()));
    }

    fn take(bytes: &[u8], at: usize) -> (r: Result<(Self, usize), DecodeError>) {
        let (tag, mid) = match u32::take(bytes, at) {
            Ok(r) => r,
            Err(e) => {
                return Err(e);
            },
        };
        proof {
            <u32 as Wire>::advances(bytes@, at as int);
        }
        if tag == 0 {
            Ok((MemberState::Up, mid))
        } else if tag == 1 {
            Ok((MemberState::Down, mid))
        } else {
            Err(DecodeError::UnknownVariant)
        }
    }
}

impl Wire for LookupResult {
    open spec fn encoding(v: LookupResult) -> Seq<u8> {
        match v {
            LookupResult::Found { id } => varint(0) + <ActorId as Wire>::encoding(
                id,
            ),
            LookupResult::NotFound => varint(1),
            LookupResult::TypeMismatch => varint(2),
        }
    }

    open spec fn read(s: Seq<u8>, at: int) -> Result<(LookupResult, int), DecodeError> {
        match <u32 as Wire>::read(s, at) {
            Ok((tag, mid)) => if tag == 0 {
                map_read(
                    <ActorId as Wire>::read(s, mid),
                    |v: ActorId| LookupResult::Found { id: v },
                )
            } else if tag == 1 {
                Ok((LookupResult::NotFound, mid))
            } else if tag == 2 {
                Ok((LookupResult::TypeMismatch, mid))
            } else {
                Err(DecodeError::UnknownVariant)
            },
            Err(e) => Err(e),
        }
    }

    open spec fn is_whole(v: LookupResult) -> bool {
        match v {
            LookupResult::Found { id } => <ActorId as Wire>::is_whole(id),
            LookupResult::NotFound => true,
            LookupResult::TypeMismatch => true,
        }
    }

    proof fn reads_back(s: Seq<u8>, at: int, v: LookupResult) {
        match v {
            LookupResult::Found { id } => {
                lemma_variant_reads_back::<ActorId>(s, at, 0, id);
            },
            LookupResult::NotFound => {
                <u32 as Wire>::reads_back(s, at, 1);
            },
            LookupResult::TypeMismatch => {
                <u32 as Wire>::reads_back(s, at, 2);
            },
        }
    }

    proof fn advances(s: Seq<u8>, at: int) {
        <u32 as Wire>::advances(s, at);
        if let Ok((tag, mid)) = <u32 as Wire>::read(s, at) {
            <ActorId as Wire>::advances(s, mid);
        }
    }

    fn put(&self, out: &mut Vec<u8>) {
        match self {
            LookupResult::Found { id } => {
                0u32.put(out);
                id.put(out);
            },
            LookupResult::NotFound => {
                1u32.put(out);
            },
            LookupResult::TypeMismatch => {
                2u32.put(out);
            },
        }
        assert(out@ =~= old(out)@ + Self::encoding(self.deep_view()));
    }

    fn take(bytes: &[u8], at: usize) -> (r: Result<(Self, usize), DecodeError>) {
        let (tag, mid) = match u32::take(bytes, at) {
            Ok(r) => r,
            Err(e) => {
                return Err(e);
            },
        };
        proof {
            <u32 as Wire>::advances(bytes@, at as int);
        }
        if tag == 0 {
            match <ActorId as Wire>::take(bytes, mid) {
                Ok((id, end)) => Ok((LookupResult::Found { id }, end)),
                Err(e) => Err(e),
            }
        } else if tag == 1 {
            Ok((LookupResult::NotFound, mid))
        } else if tag == 2 {
            Ok((LookupResult::TypeMismatch, mid))
        } else {
            Err(DecodeError::UnknownVariant)
        }
    }
}

impl Wire for Handshake {
    open spec fn encoding(v: Handshake) -> Seq<u8> {
        <(u32, (u16, (NodeId, HandshakeIntent))) as Wire>::encoding((v.magic, (v.protocol_version, (v.node, v.intent))))
    }

    open spec fn read(s: Seq<u8>, at: int) -> Result<(Handshake, int), DecodeError> {
        map_read(
            <(u32, (u16, (NodeId, HandshakeIntent))) as Wire>::read(s, at),
            |v: (u32, (u16, (NodeId, HandshakeIntent)))| Handshake { magic: v.0, protocol_version: v.1.0, node: v.1.1.0, intent: v.1.1.1 },
        )
    }

    open spec fn is_whole(v: Handshake) -> bool {
        <u32 as Wire>::is_whole(v.magic) && <u16 as Wire>::is_whole(v.protocol_version) && <NodeId as Wire>::is_whole(v.node) && <HandshakeIntent as Wire>::is_whole(v.intent)
    }

    proof fn reads_back(s: Seq<u8>, at: int, v: Handshake) {
        <(u32, (u16, (NodeId, HandshakeIntent))) as Wire>::reads_back(s, at, (v.magic, (v.protocol_version, (v.node, v.intent))));
    }

    proof fn advances(s: Seq<u8>, at: int) {
        <(u32, (u16, (NodeId, HandshakeIntent))) as Wire>::advances(s, at);
    }

    fn put(&self, out: &mut Vec<u8>) {
        (self.magic, (self.protocol_version, (self.node, self.intent))).put(out);
    }

    fn take(bytes: &[u8], at: usize) -> (r: Result<(Self, usize), DecodeError>) {
        match <(u32, (u16, (NodeId, HandshakeIntent))) as Wire>::take(bytes, at) {
            Ok(((magic, (protocol_version, (node, intent))), end)) => Ok((Handshake { magic, protocol_version, node, intent }, end)),
            Err(e) => Err(e),
        }
    }
}

impl Wire for WireMember {
    open spec fn encoding(v: WireMember) -> Seq<u8> {
        <(NodeId, MemberState) as Wire>::encoding((v.node, v.state))
    }

    open spec fn read(s: Seq<u8>, at: int) -> Result<(WireMember, int), DecodeError> {
        map_read(
            <(NodeId, MemberState) as Wire>::read(s, at),
            |v: (NodeId, MemberState)| WireMember { node: v.0, state: v.1 },
        )
    }

    open spec fn is_whole(v: WireMember) -> bool {
        <NodeId as Wire>::is_whole(v.node) && <MemberState as Wire>::is_whole(v.state)
    }

    proof fn reads_back(s: Seq<u8>, at: int, v: WireMember) {
        <(NodeId, MemberState) as Wire>::reads_back(s, at, (v.node, v.state));
    }

    proof fn advances(s: Seq<u8>, at: int) {
        <(NodeId, MemberState) as Wire>::advances(s, at);
    }

    fn put(&self, out: &mut Vec<u8>) {
        (self.node, self.state).put(out);
    }

    fn take(bytes: &[u8], at: usize) -> (r: Result<(Self, usize), DecodeError>) {
        match <(NodeId, MemberState) as Wire>::take(bytes, at) {
            Ok(((node, state), end)) => Ok((WireMember { node, state }, end)),
            Err(e) => Err(e),
        }
    }
}

impl Wire for WireReachability {
    open spec fn encoding(v: WireReachability) -> Seq<u8> {
        <(NodeId, (NodeId, (u64, bool))) as Wire>::encoding((v.observer, (v.subject, (v.version, v.reachable))))
    }

    open spec fn read(s: Seq<u8>, at: int) -> Result<(WireReachability, int), DecodeError> {
        map_read(
            <(NodeId, (NodeId, (u64, bool))) as Wire>::read(s, at),
            |v: (NodeId, (NodeId, (u64, bool)))| WireReachability { observer: v.0, subject: v.1.0, version: v.1.1.0, reachable: v.1.1.1 },
        )
    }

    open spec fn is_whole(v: WireReachability) -> bool {
        <NodeId as Wire>::is_whole(v.observer) && <NodeId as Wire>::is_whole(v.subject) && <u64 as Wire>::is_whole(v.version) && <bool as Wire>::is_whole(v.reachable)
    }

    proof fn reads_back(s: Seq<u8>, at: int, v: WireReachability) {
        <(NodeId, (NodeId, (u64, bool))) as Wire>::reads_back(s, at, (v.observer, (v.subject, (v.version, v.reachable))));
    }

    proof fn advances(s: Seq<u8>, at: int) {
        <(NodeId, (NodeId, (u64, bool))) as Wire>::advances(s, at);
    }

    fn put(&self, out: &mut Vec<u8>) {
        (self.observer, (self.subject, (self.version, self.reachable))).put(out);
    }

    fn take(bytes: &[u8], at: usize) -> (r: Result<(Self, usize), DecodeError>) {
        match <(NodeId, (NodeId, (u64, bool))) as Wire>::take(bytes, at) {
            Ok(((observer, (subject, (version, reachable))), end)) => Ok((WireReachability { observer, subject, version, reachable }, end)),
            Err(e) => Err(e),
        }
    }
}

impl Wire for ReplyTag {
    open spec fn encoding(v: ReplyTag) -> Seq<u8> {
        <(Nonce, Option<ActorId>) as Wire>::encoding((v.nonce, v.recipient))
    }

    open spec fn read(s: Seq<u8>, at: int) -> Result<(ReplyTag, int), DecodeError> {
        map_read(
            <(Nonce, Option<ActorId>) as Wire>::read(s, at),
            |v: (Nonce, Option<ActorId>)| ReplyTag { nonce: v.0, recipient: v.1 },
        )
    }

    open spec fn is_whole(v: ReplyTag) -> bool {
        <Nonce as Wire>::is_whole(v.nonce) && <Option<ActorId> as Wire>::is_whole(v.recipient)
    }

    proof fn reads_back(s: Seq<u8>, at: int, v: ReplyTag) {
        <(Nonce, Option<ActorId>) as Wire>::reads_back(s, at, (v.nonce, v.recipient));
    }

    proof fn advances(s: Seq<u8>, at: int) {
        <(Nonce, Option<ActorId>) as Wire>::advances(s, at);
    }

    fn put(&self, out: &mut Vec<u8>) {
        (self.nonce, self.recipient).put(out);
    }

    fn take(bytes: &[u8], at: usize) -> (r: Result<(Self, usize), DecodeError>) {
        match <(Nonce, Option<ActorId>) as Wire>::take(bytes, at) {
            Ok(((nonce, recipient), end)) => Ok((ReplyTag { nonce, recipient }, end)),
            Err(e) => Err(e),
        }
    }
}

impl Wire for WireKey {
    open spec fn encoding(v: WireKeyModel) -> Seq<u8> {
        <(String, String) as Wire>::encoding((v.name, v.type_tag))
    }

    open spec fn read(s: Seq<u8>, at: int) -> Result<(WireKeyModel, int), DecodeError> {
        map_read(
            <(String, String) as Wire>::read(s, at),
            |v: (Seq<char>, Seq<char>)| WireKeyModel { name: v.0, type_tag: v.1 },
        )
    }

    open spec fn is_whole(v: WireKeyModel) -> bool {
        <String as Wire>::is_whole(v.name) && <String as Wire>::is_whole(v.type_tag)
    }

    proof fn reads_back(s: Seq<u8>, at: int, v: WireKeyModel) {
        <(String, String) as Wire>::reads_back(s, at, (v.name, v.type_tag));
    }

    proof fn advances(s: Seq<u8>, at: int) {
        <(String, String) as Wire>::advances(s, at);
    }

    fn put(&self, out: &mut Vec<u8>) {
        self.name.put(out);
        self.type_tag.put(out);
        assert(out@ =~= old(out)@ + Self::encoding(self.deep_view()));
    }

    fn take(bytes: &[u8], at: usize) -> (r: Result<(Self, usize), DecodeError>) {
        match <(String, String) as Wire>::take(bytes, at) {
            Ok(((name, type_tag), end)) => Ok((WireKey { name, type_tag }, end)),
            Err(e) => Err(e),
        }
    }
}

impl Wire for WireRegistration {
    open spec fn encoding(v: WireRegistrationModel) -> Seq<u8> {
        <(WireKey, ActorId) as Wire>::encoding((v.key, v.id))
    }

    open spec fn read(s: Seq<u8>, at: int) -> Result<(WireRegistrationModel, int), DecodeError> {
        map_read(
            <(WireKey, ActorId) as Wire>::read(s, at),
            |v: (WireKeyModel, ActorId)| WireRegistrationModel { key: v.0, id: v.1 },
        )
    }

    open spec fn is_whole(v: WireRegistrationModel) -> bool {
        <WireKey as Wire>::is_whole(v.key) && <ActorId as Wire>::is_whole(v.id)
    }

    proof fn reads_back(s: Seq<u8>, at: int, v: WireRegistrationModel) {
        <(WireKey, ActorId) as Wire>::reads_back(s, at, (v.key, v.id));
    }

    proof fn advances(s: Seq<u8>, at: int) {
        <(WireKey, ActorId) as Wire>::advances(s, at);
    }

    fn put(&self, out: &mut Vec<u8>) {
        self.key.put(out);
        self.id.put(out);
        assert(out@ =~= old(out)@ + Self::encoding(self.deep_view()));
    }

    fn take(bytes: &[u8], at: usize) -> (r: Result<(Self, usize), DecodeError>) {
        match <(WireKey, ActorId) as Wire>::take(bytes, at) {
            Ok(((key, id), end)) => Ok((WireRegistration { key, id }, end)),
            Err(e) => Err(e),
        }
    }
}

impl Wire for Frame {
    open spec fn encoding(v: FrameModel) -> Seq<u8> {
        match v {
            FrameModel::Handshake(handshake) => varint(0) + <Handshake as Wire>::encoding(
                handshake,
            ),
            FrameModel::Message { target, reply_tags, payload } => varint(1) + <(ActorId, (Vec<ReplyTag>, Vec<u8>)) as Wire>::encoding(
                (target, (reply_tags, payload)),
            ),
            FrameModel::Watch { target, watcher } => varint(2) + <(ActorId, ActorId) as Wire>::encoding(
                (target, watcher),
            ),
            FrameModel::Unwatch { target, watcher } => varint(3) + <(ActorId, ActorId) as Wire>::encoding(
                (target, watcher),
            ),
            FrameModel::Terminated { target, watcher } => varint(4) + <(ActorId, ActorId) as Wire>::encoding(
                (target, watcher),
            ),
            FrameModel::Lookup { nonce, key } => varint(5) + <(Nonce, WireKey) as Wire>::encoding(
                (nonce, key),
            ),
            FrameModel::LookupReply { nonce, result } => varint(6) + <(Nonce, LookupResult) as Wire>::encoding(
                (nonce, result),
            ),
            FrameModel::Reply { nonce, recipient, payload } => varint(7) + <(Nonce, (Option<ActorId>, Vec<u8>)) as Wire>::encoding(
                (nonce, (recipient, payload)),
            ),
            FrameModel::ReplyDropped { nonce, recipient } => varint(8) + <(Nonce, Option<ActorId>) as Wire>::encoding(
                (nonce, recipient),
            ),
            FrameModel::Gossip { members, more } => varint(9) + <(Vec<WireMember>, bool) as Wire>::encoding(
                (members, more),
            ),
            FrameModel::Refused { reason } => varint(10) + <RefusalReason as Wire>::encoding(
                reason,
            ),
            FrameModel::Reachability { observations } => varint(11) + <Vec<WireReachability> as Wire>::encoding(
                observations,
            ),
            FrameModel::Registrations { version, chunk, chunks, entries } => varint(12) + <(u64, (u32, (u32, Vec<WireRegistration>))) as Wire>::encoding(
                (version, (chunk, (chunks, entries))),
            ),
        }
    }

    open spec fn read(s: Seq<u8>, at: int) -> Result<(FrameModel, int), DecodeError> {
        match <u32 as Wire>::read(s, at) {
            Ok((tag, mid)) => if tag == 0 {
                map_read(
                    <Handshake as Wire>::read(s, mid),
                    |v: Handshake| FrameModel::Handshake(v),
                )
            } else if tag == 1 {
                map_read(
                    <(ActorId, (Vec<ReplyTag>, Vec<u8>)) as Wire>::read(s, mid),
                    |v: (ActorId, (Seq<ReplyTag>, Seq<u8>))| FrameModel::Message { target: v.0, reply_tags: v.1.0, payload: v.1.1 },
                )
            } else if tag == 2 {
                map_read(
                    <(ActorId, ActorId) as Wire>::read(s, mid),
                    |v: (ActorId, ActorId)| FrameModel::Watch { target: v.0, watcher: v.1 },
                )
            } else if tag == 3 {
                map_read(
                    <(ActorId, ActorId) as Wire>::read(s, mid),
                    |v: (ActorId, ActorId)| FrameModel::Unwatch { target: v.0, watcher: v.1 },
                )
            } else if tag == 4 {
                map_read(
                    <(ActorId, ActorId) as Wire>::read(s, mid),
                    |v: (ActorId, ActorId)| FrameModel::Terminated { target: v.0, watcher: v.1 },
                )
            } else if tag == 5 {
                map_read(
                    <(Nonce, WireKey) as Wire>::read(s, mid),
                    |v: (Nonce, WireKeyModel)| FrameModel::Lookup { nonce: v.0, key: v.1 },
                )
            } else if tag == 6 {
                map_read(
                    <(Nonce, LookupResult) as Wire>::read(s, mid),
                    |v: (Nonce, LookupResult)| FrameModel::LookupReply { nonce: v.0, result: v.1 },
                )
            } else if tag == 7 {
                map_read(
                    <(Nonce, (Option<ActorId>, Vec<u8>)) as Wire>::read(s, mid),
                    |v: (Nonce, (Option<ActorId>, Seq<u8>))| FrameModel::Reply { nonce: v.0, recipient: v.1.0, payload: v.1.1 },
                )
            } else if tag == 8 {
                map_read(
                    <(Nonce, Option<ActorId>) as Wire>::read(s, mid),
                    |v: (Nonce, Option<ActorId>)| FrameModel::ReplyDropped { nonce: v.0, recipient: v.1 },
                )
            } else if tag == 9 {
                map_read(
                    <(Vec<WireMember>, bool) as Wire>::read(s, mid),
                    |v: (Seq<WireMember>, bool)| FrameModel::Gossip { members: v.0, more: v.1 },
                )
            } else if tag == 10 {
                map_read(
                    <RefusalReason as Wire>::read(s, mid),
                    |v: RefusalReason| FrameModel::Refused { reason: v },
                )
            } else if tag == 11 {
                map_read(
                    <Vec<WireReachability> as Wire>::read(s, mid),
                    |v: Seq<WireReachability>| FrameModel::Reachability { observations: v },
                )
            } else if tag == 12 {
                map_read(
                    <(u64, (u32, (u32, Vec<WireRegistration>))) as Wire>::read(s, mid),
                    |v: (u64, (u32, (u32, Seq<WireRegistrationModel>)))| FrameModel::Registrations { version: v.0, chunk: v.1.0, chunks: v.1.1.0, entries: v.1.1.1 },
                )
            } else {
                Err(DecodeError::UnknownVariant)
            },
            Err(e) => Err(e),
        }
    }

    open spec fn is_whole(v: FrameModel) -> bool {
        match v {
            FrameModel::Handshake(handshake) => <Handshake as Wire>::is_whole(handshake),
            FrameModel::Message { target, reply_tags, payload } => <(ActorId, (Vec<ReplyTag>, Vec<u8>)) as Wire>::is_whole((target, (reply_tags, payload))),
            FrameModel::Watch { target, watcher } => <(ActorId, ActorId) as Wire>::is_whole((target, watcher)),
            FrameModel::Unwatch { target, watcher } => <(ActorId, ActorId) as Wire>::is_whole((target, watcher)),
            FrameModel::Terminated { target, watcher } => <(ActorId, ActorId) as Wire>::is_whole((target, watcher)),
            FrameModel::Lookup { nonce, key } => <(Nonce, WireKey) as Wire>::is_whole((nonce, key)),
            FrameModel::LookupReply { nonce, result } => <(Nonce, LookupResult) as Wire>::is_whole((nonce, result)),
            FrameModel::Reply { nonce, recipient, payload } => <(Nonce, (Option<ActorId>, Vec<u8>)) as Wire>::is_whole((nonce, (recipient, payload))),
            FrameModel::ReplyDropped { nonce, recipient } => <(Nonce, Option<ActorId>) as Wire>::is_whole((nonce, recipient)),
            FrameModel::Gossip { members, more } => <(Vec<WireMember>, bool) as Wire>::is_whole((members, more)),
            FrameModel::Refused { reason } => <RefusalReason as Wire>::is_whole(reason),
            FrameModel::Reachability { observations } => <Vec<WireReachability> as Wire>::is_whole(observations),
            FrameModel::Registrations { version, chunk, chunks, entries } => <(u64, (u32, (u32, Vec<WireRegistration>))) as Wire>::is_whole((version, (chunk, (chunks, entries)))),
        }
    }

    proof fn reads_back(s: Seq<u8>, at: int, v: FrameModel) {
        match v {
            FrameModel::Handshake(handshake) => {
                lemma_variant_reads_back::<Handshake>(s, at, 0, handshake);
            },
            FrameModel::Message { target, reply_tags, payload } => {
                lemma_variant_reads_back::<(ActorId, (Vec<ReplyTag>, Vec<u8>))>(s, at, 1, (target, (reply_tags, payload)));
            },
            FrameModel::Watch { target, watcher } => {
                lemma_variant_reads_back::<(ActorId, ActorId)>(s, at, 2, (target, watcher));
            },
            FrameModel::Unwatch { target, watcher } => {
                lemma_variant_reads_back::<(ActorId, ActorId)>(s, at, 3, (target, watcher));
            },
            FrameModel::Terminated { target, watcher } => {
                lemma_variant_reads_back::<(ActorId, ActorId)>(s, at, 4, (target, watcher));
            },
            FrameModel::Lookup { nonce, key } => {
                lemma_variant_reads_back::<(Nonce, WireKey)>(s, at, 5, (nonce, key));
            },
            FrameModel::LookupReply { nonce, result } => {
                lemma_variant_reads_back::<(Nonce, LookupResult)>(s, at, 6, (nonce, result));
            },
            FrameModel::Reply { nonce, recipient, payload } => {
                lemma_variant_reads_back::<(Nonce, (Option<ActorId>, Vec<u8>))>(s, at, 7, (nonce, (recipient, payload)));
            },
            FrameModel::ReplyDropped { nonce, recipient } => {
                lemma_variant_reads_back::<(Nonce, Option<ActorId>)>(s, at, 8, (nonce, recipient));
            },
            FrameModel::Gossip { members, more } => {
                lemma_variant_reads_back::<(Vec<WireMember>, bool)>(s, at, 9, (members, more));
            },
            FrameModel::Refused { reason } => {
                lemma_variant_reads_back::<RefusalReason>(s, at, 10, reason);
            },
            FrameModel::Reachability { observations } => {
                lemma_variant_reads_back::<Vec<WireReachability>>(s, at, 11, observations);
            },
            FrameModel::Registrations { version, chunk, chunks, entries } => {
                lemma_variant_reads_back::<(u64, (u32, (u32, Vec<WireRegistration>)))>(s, at, 12, (version, (chunk, (chunks, entries))));
            },
        }
    }

    proof fn advances(s: Seq<u8>, at: int) {
        <u32 as Wire>::advances(s, at);
        if let Ok((tag, mid)) = <u32 as Wire>::read(s, at) {
            <Handshake as Wire>::advances(s, mid);
            <(ActorId, (Vec<ReplyTag>, Vec<u8>)) as Wire>::advances(s, mid);
            <(ActorId, ActorId) as Wire>::advances(s, mid);
            <(ActorId, ActorId) as Wire>::advances(s, mid);
            <(ActorId, ActorId) as Wire>::advances(s, mid);
            <(Nonce, WireKey) as Wire>::advances(s, mid);
            <(Nonce, LookupResult) as Wire>::advances(s, mid);
            <(Nonce, (Option<ActorId>, Vec<u8>)) as Wire>::advances(s, mid);
            <(Nonce, Option<ActorId>) as Wire>::advances(s, mid);
            <(Vec<WireMember>, bool) as Wire>::advances(s, mid);
            <RefusalReason as Wire>::advances(s, mid);
            <Vec<WireReachability> as Wire>::advances(s, mid);
            <(u64, (u32, (u32, Vec<WireRegistration>))) as Wire>::advances(s, mid);
        }
    }

    fn put(&self, out: &mut Vec<u8>) {
        match self {
            Frame::Handshake(handshake) => {
                0u32.put(out);
                handshake.put(out);
            },
            Frame::Message { target, reply_tags, payload } => {
                1u32.put(out);
                target.put(out);
                reply_tags.put(out);
                payload.put(out);
            },
            Frame::Watch { target, watcher } => {
                2u32.put(out);
                target.put(out);
                watcher.put(out);
            },
            Frame::Unwatch { target, watcher } => {
                3u32.put(out);
                target.put(out);
                watcher.put(out);
            },
            Frame::Terminated { target, watcher } => {
                4u32.put(out);
                target.put(out);
                watcher.put(out);
            },
            Frame::Lookup { nonce, key } => {
                5u32.put(out);
                nonce.put(out);
                key.put(out);
            },
            Frame::LookupReply { nonce, result } => {
                6u32.put(out);
                nonce.put(out);
                result.put(out);
            },
            Frame::Reply { nonce, recipient, payload } => {
                7u32.put(out);
                nonce.put(out);
                recipient.put(out);
                payload.put(out);
            },
            Frame::ReplyDropped { nonce, recipient } => {
                8u32.put(out);
                nonce.put(out);
                recipient.put(out);
            },
            Frame::Gossip { members, more } => {
                9u32.put(out);
                members.put(out);
                more.put(out);
            },
            Frame::Refused { reason } => {
                10u32.put(out);
                reason.put(out);
            },
            Frame::Reachability { observations } => {
                11u32.put(out);
                observations.put(out);
            },
            Frame::Registrations { version, chunk, chunks, entries } => {
                12u32.put(out);
                version.put(out);
                chunk.put(out);
                chunks.put(out);
                entries.put(out);
            },
        }
        assert(out@ =~= old(out)@ + Self::encoding(self.deep_view()));
    }

    fn take(bytes: &[u8], at: usize) -> (r: Result<(Self, usize), DecodeError>) {
        let (tag, mid) = match u32::take(bytes, at) {
            Ok(r) => r,
            Err(e) => {
                return Err(e);
            },
        };
        proof {
            <u32 as Wire>::advances(bytes@, at as int);
        }
        if tag == 0 {
            match <Handshake as Wire>::take(bytes, mid) {
                Ok((handshake, end)) => Ok((Frame::Handshake(handshake), end)),
                Err(e) => Err(e),
            }
        } else if tag == 1 {
            match <(ActorId, (Vec<ReplyTag>, Vec<u8>)) as Wire>::take(bytes, mid) {
                Ok(((target, (reply_tags, payload)), end)) => Ok((Frame::Message { target, reply_tags, payload }, end)),
                Err(e) => Err(e),
            }
        } else if tag == 2 {
            match <(ActorId, ActorId) as Wire>::take(bytes, mid) {
                Ok(((target, watcher), end)) => Ok((Frame::Watch { target, watcher }, end)),
                Err(e) => Err(e),
            }
        } else if tag == 3 {
            match <(ActorId, ActorId) as Wire>::take(bytes, mid) {
                Ok(((target, watcher), end)) => Ok((Frame::Unwatch { target, watcher }, end)),
                Err(e) => Err(e),
            }
        } else if tag == 4 {
            match <(ActorId, ActorId) as Wire>::take(bytes, mid) {
                Ok(((target, watcher), end)) => Ok((Frame::Terminated { target, watcher }, end)),
                Err(e) => Err(e),
            }
        } else if tag == 5 {
            match <(Nonce, WireKey) as Wire>::take(bytes, mid) {
                Ok(((nonce, key), end)) => Ok((Frame::Lookup { nonce, key }, end)),
                Err(e) => Err(e),
            }
        } else if tag == 6 {
            match <(Nonce, LookupResult) as Wire>::take(bytes, mid) {
                Ok(((nonce, result), end)) => Ok((Frame::LookupReply { nonce, result }, end)),
                Err(e) => Err(e),
            }
        } else if tag == 7 {
            match <(Nonce, (Option<ActorId>, Vec<u8>)) as Wire>::take(bytes, mid) {
                Ok(((nonce, (recipient, payload)), end)) => Ok((Frame::Reply { nonce, recipient, payload }, end)),
                Err(e) => Err(e),
            }
        } else if tag == 8 {
            match <(Nonce, Option<ActorId>) as Wire>::take(bytes, mid) {
                Ok(((nonce, recipient), end)) => Ok((Frame::ReplyDropped { nonce, recipient }, end)),
                Err(e) => Err(e),
            }
        } else if tag == 9 {
            match <(Vec<WireMember>, bool) as Wire>::take(bytes, mid) {
                Ok(((members, more), end)) => Ok((Frame::Gossip { members, more }, end)),
                Err(e) => Err(e),
            }
        } else if tag == 10 {
            match <RefusalReason as Wire>::take(bytes, mid) {
                Ok((reason, end)) => Ok((Frame::Refused { reason }, end)),
                Err(e) => Err(e),
            }
        } else if tag == 11 {
            match <Vec<WireReachability> as Wire>::take(bytes, mid) {
                Ok((observations, end)) => Ok((Frame::Reachability { observations }, end)),
                Err(e) => Err(e),
            }
        } else if tag == 12 {
            match <(u64, (u32, (u32, Vec<WireRegistration>))) as Wire>::take(bytes, mid) {
                Ok(((version, (chunk, (chunks, entries))), end)) => Ok((Frame::Registrations { version, chunk, chunks, entries }, end)),
                Err(e) => Err(e),
            }
        } else {
            Err(DecodeError::UnknownVariant)
        }
    }
}

} // verus!
