//! Registering actors under names and resolving them at other nodes.

use std::marker::PhantomData;

use vstd::prelude::*;

use crate::addr::SocketAddr;
use crate::cluster::frame::{Frame, FrameModel};
use crate::cluster::membership::Membership;
use crate::cluster::registry::{Named, Registry};
use crate::ids::{ActorId, Nonce, NodeId};
use crate::seqs::{lemma_filter_start, lemma_filter_step};
use crate::table::{put, value_of, without, Table};

verus! {

/// The name an actor is registered under for discovery, typed by the actor's message type: the
/// type travels with the name, so a lookup naming the wrong one is refused rather than resolved
/// into a reference which drops every message it is told.
///
/// The type is compared by its name as both nodes' compilers spell it, which assumes they are built
/// from the same source.
#[derive(Debug)]
pub struct Key<M> {
    pub name: String,
    pub message: PhantomData<M>,
}

impl<M> Key<M> {
    /// A key under the given name.
    pub fn new(name: &str) -> (key: Self)
        ensures
            key.name@ == name@,
    {
        Key { name: name.to_owned(), message: PhantomData }
    }

    /// The key as it travels, given how the compiler spells the message type.
    pub fn wire(&self, type_tag: &str) -> (key: WireKey)
        ensures
            key.deep_view() == (WireKeyModel { name: self.name@, type_tag: type_tag@ }),
    {
        WireKey { name: self.name.clone(), type_tag: type_tag.to_owned() }
    }
}

impl<M> Clone for Key<M> {
    fn clone(&self) -> (key: Self)
        ensures
            key.name@ == self.name@,
    {
        Key { name: self.name.clone(), message: PhantomData }
    }
}

/// A key as it travels: the name together with the name of the message type.
#[derive(Debug, Clone, PartialEq, Eq)]
pub struct WireKey {
    pub name: String,
    pub type_tag: String,
}

#[verifier::ext_equal]
pub ghost struct WireKeyModel {
    pub name: Seq<char>,
    pub type_tag: Seq<char>,
}

impl DeepView for WireKey {
    type V = WireKeyModel;

    open spec fn deep_view(&self) -> WireKeyModel {
        WireKeyModel { name: self.name.deep_view(), type_tag: self.type_tag.deep_view() }
    }
}

impl WireKey {
    /// The key of the given name for messages of the type spelled so.
    pub fn new(name: &str, type_tag: &str) -> (key: Self)
        ensures
            key.deep_view() == (WireKeyModel { name: name@, type_tag: type_tag@ }),
    {
        WireKey { name: name.to_owned(), type_tag: type_tag.to_owned() }
    }

    pub fn name(&self) -> (name: &str)
        ensures
            name@ == self.deep_view().name,
    {
        self.name.as_str()
    }

    pub fn type_tag(&self) -> (type_tag: &str)
        ensures
            type_tag@ == self.deep_view().type_tag,
    {
        self.type_tag.as_str()
    }

    /// Another value of the same key.
    pub fn copy(&self) -> (key: WireKey)
        ensures
            key.deep_view() == self.deep_view(),
    {
        WireKey { name: self.name.clone(), type_tag: self.type_tag.clone() }
    }
}

/// An actor which cannot be registered for discovery.
#[derive(Debug, Clone, Copy, PartialEq, Eq, Structural)]
pub enum RegisterError {
    /// The remoting endpoint has not been started.
    EndpointNotStarted,
    /// The reference names an actor on another node; only actors of this node can be registered
    /// here.
    NotLocal,
    /// The registration does not fit one frame, so it could not be replicated.
    TooLarge { len: usize, max: usize },
}

/// A key which cannot be resolved.
#[derive(Debug, Clone, Copy, PartialEq, Eq, Structural)]
pub enum LookupError {
    /// The remoting endpoint has not been started.
    EndpointNotStarted,
    /// No actor could be resolved under this key. During bootstrap this is the ordinary answer of a
    /// node whose actor is not registered yet, hence worth retrying.
    NotFound,
    /// The node has an actor registered under this name, but for another message type.
    TypeMismatch,
    /// No Up member of the cluster advertises this address. During bootstrap this is the ordinary
    /// answer while the node there has not joined yet, hence worth retrying.
    NotAMember(SocketAddr),
    /// The node could not be reached, or was given up on before it answered.
    Unreachable(SocketAddr),
}

/// Why a local reference cannot be resolved.
#[derive(Debug, Clone, Copy, PartialEq, Eq, Structural)]
pub enum LocalRefError {
    /// The actor expects another message type.
    MessageType,
    /// No such actor, or it terminated.
    Unbound,
}

/// The answer to a lookup.
#[derive(Debug, Clone, Copy, PartialEq, Eq, Structural)]
pub enum LookupResult {
    Found { id: ActorId },
    NotFound,
    TypeMismatch,
}

/// A lookup sent and not answered. Dropping its sink fails it.
#[derive(Debug)]
pub struct PendingLookup<S> {
    pub peer: NodeId,
    pub key: WireKey,
    pub sink: S,
}

/// The lookups sent and not answered. A reconnect sends these again, a node given up on fails them;
/// else they wait.
#[derive(Debug)]
pub struct PendingLookups<S> {
    pub next_nonce: u64,
    pub pending: Table<Nonce, PendingLookup<S>>,
}

pub open spec fn is_lookup_to<S>(peer: NodeId) -> spec_fn((Nonce, PendingLookup<S>)) -> bool {
    |e: (Nonce, PendingLookup<S>)| e.1.peer == peer
}

pub open spec fn following_nonce(nonce: u64) -> u64 {
    if nonce == u64::MAX {
        0
    } else {
        (nonce + 1) as u64
    }
}

pub open spec fn is_lookup_elsewhere<S>(addr: SocketAddr) -> spec_fn((Nonce, PendingLookup<S>)) -> bool {
    |e: (Nonce, PendingLookup<S>)| e.1.peer.addr != addr
}

pub open spec fn is_lookup_beyond<S>(fence: NodeId) -> spec_fn((Nonce, PendingLookup<S>)) -> bool {
    |e: (Nonce, PendingLookup<S>)| !fence.fences(e.1.peer)
}

pub open spec fn lookup_frames<S>(pending: Seq<(Nonce, PendingLookup<S>)>, peer: NodeId) -> Seq<
    FrameModel,
> {
    pending.filter(is_lookup_to(peer)).map_values(
        |e: (Nonce, PendingLookup<S>)|
            FrameModel::Lookup { nonce: e.0, key: e.1.key.deep_view() },
    )
}

impl<S> PendingLookups<S> {
    pub open spec fn wf(&self) -> bool {
        self.pending.wf()
    }

    pub fn new() -> (lookups: Self)
        ensures
            lookups.wf(),
            lookups.next_nonce == 0,
            lookups.pending@.len() == 0,
    {
        PendingLookups { next_nonce: 0, pending: Table::new() }
    }

    /// The frames which repeat every lookup sent to the peer.
    pub fn frames(&self, peer: NodeId) -> (frames: Vec<Frame>)
        requires
            self.wf(),
        ensures
            frames.deep_view() == lookup_frames(self.pending@, peer),
    {
        let ghost p = is_lookup_to::<S>(peer);
        let ghost s = self.pending@;
        let mut frames: Vec<Frame> = Vec::new();
        let mut i: usize = 0;
        proof {
            lemma_filter_start(s, p);
            assert(frames.deep_view() =~= lookup_frames(s.take(0), peer));
        }
        while i < self.pending.entries.len()
            invariant
                i <= s.len(),
                s == self.pending@,
                p == is_lookup_to::<S>(peer),
                frames.deep_view() == lookup_frames(s.take(i as int), peer),
            decreases s.len() - i,
        {
            let ghost before = frames.deep_view();
            let entry = &self.pending.entries[i];
            proof {
                lemma_filter_step(s, p, i as int);
            }
            if entry.1.peer == peer {
                frames.push(Frame::Lookup { nonce: entry.0, key: entry.1.key.copy() });
                assert(frames.deep_view() =~= before.push(
                    FrameModel::Lookup { nonce: entry.0, key: entry.1.key.deep_view() },
                ));
            }
            i = i + 1;
            assert(frames.deep_view() =~= lookup_frames(s.take(i as int), peer));
        }
        proof {
            lemma_filter_start(s, p);
        }
        frames
    }

    /// Fails the lookups sent to any incarnation at the address.
    pub fn fail_addr(&mut self, addr: SocketAddr)
        requires
            old(self).wf(),
        ensures
            final(self).wf(),
            final(self).next_nonce == old(self).next_nonce,
            final(self).pending@ == old(self).pending@.filter(is_lookup_elsewhere(addr)),
    {
        let ghost p = is_lookup_elsewhere::<S>(addr);
        let keep = |nonce: &Nonce, pending: &PendingLookup<S>| -> (r: bool)
            ensures
                r == (pending.peer.addr != addr),
            { pending.peer.addr != addr };
        self.pending.retain(keep, Ghost(p));
    }

    /// Fails the lookups sent to an incarnation the fence covers; one sent to its successor stays.
    pub fn fail_fenced(&mut self, fence: NodeId)
        requires
            old(self).wf(),
        ensures
            final(self).wf(),
            final(self).next_nonce == old(self).next_nonce,
            final(self).pending@ == old(self).pending@.filter(is_lookup_beyond(fence)),
    {
        let ghost p = is_lookup_beyond::<S>(fence);
        let keep = |nonce: &Nonce, pending: &PendingLookup<S>| -> (r: bool)
            ensures
                r == !fence.fences(pending.peer),
            { !fence.covers(pending.peer) };
        self.pending.retain(keep, Ghost(p));
    }

    /// Records a lookup about to be sent to the peer under a nonce of its own.
    pub fn add(&mut self, peer: NodeId, key: WireKey, sink: S) -> (nonce: Nonce)
        requires
            old(self).wf(),
        ensures
            final(self).wf(),
            nonce.0 == old(self).next_nonce,
            final(self).next_nonce == if old(self).next_nonce == u64::MAX {
                0
            } else {
                old(self).next_nonce + 1
            },
            final(self).pending@ == put(
                old(self).pending@,
                nonce,
                PendingLookup { peer, key, sink },
            ),
    {
        let nonce = Nonce::mint(&mut self.next_nonce);
        self.pending.insert(nonce, PendingLookup { peer, key, sink });
        nonce
    }

    /// Forgets a lookup its caller no longer waits for.
    pub fn cancel(&mut self, nonce: Nonce) -> (removed: Option<PendingLookup<S>>)
        requires
            old(self).wf(),
        ensures
            final(self).wf(),
            final(self).next_nonce == old(self).next_nonce,
            final(self).pending@ == without(old(self).pending@, nonce),
            removed == value_of(old(self).pending@, nonce),
    {
        self.pending.remove(nonce)
    }

    pub open spec fn is_asked(&self, nonce: Nonce, peer: NodeId) -> bool {
        value_of(self.pending@, nonce) matches Some(pending) && pending.peer == peer
    }

    /// The lookup answered, provided that the peer is the one it was sent to: a nonce is unique to
    /// this node only.
    pub fn take_from(&mut self, nonce: Nonce, peer: NodeId) -> (taken: Option<PendingLookup<S>>)
        requires
            old(self).wf(),
        ensures
            final(self).wf(),
            final(self).next_nonce == old(self).next_nonce,
            old(self).is_asked(nonce, peer) ==> taken == value_of(old(self).pending@, nonce)
                && final(self).pending@ == without(old(self).pending@, nonce),
            !old(self).is_asked(nonce, peer) ==> taken is None && final(self).pending@ == old(
                self).pending@,
    {
        let asked = match self.pending.get(nonce) {
            Some(pending) => pending.peer == peer,
            None => false,
        };
        if asked {
            self.pending.remove(nonce)
        } else {
            None
        }
    }
}

pub open spec fn key_result(named: Named) -> LookupResult {
    match named {
        Named::Found(id) => LookupResult::Found { id },
        Named::NotFound => LookupResult::NotFound,
        Named::TypeMismatch => LookupResult::TypeMismatch,
    }
}

/// What a node answers to a lookup of the key.
pub fn resolve_key(registry: &Registry, key: &WireKey) -> (result: LookupResult)
    ensures
        result == key_result(registry.spec_named(key.deep_view())),
{
    match registry.named(key) {
        Named::Found(id) => LookupResult::Found { id },
        Named::NotFound => LookupResult::NotFound,
        Named::TypeMismatch => LookupResult::TypeMismatch,
    }
}

/// The frame which answers a lookup.
pub fn on_lookup(registry: &Registry, nonce: Nonce, key: &WireKey) -> (frame: Frame)
    ensures
        frame.deep_view() == (FrameModel::LookupReply {
            nonce,
            result: key_result(registry.spec_named(key.deep_view())),
        }),
{
    Frame::LookupReply { nonce, result: resolve_key(registry, key) }
}

/// The sink an answer is to be handed to, none for an answer the peer was not asked for.
pub fn on_lookup_reply<S>(lookups: &mut PendingLookups<S>, peer: NodeId, nonce: Nonce) -> (sink:
    Option<S>)
    requires
        old(lookups).wf(),
    ensures
        final(lookups).wf(),
        final(lookups).next_nonce == old(lookups).next_nonce,
        old(lookups).is_asked(nonce, peer) ==> sink == Some(
            value_of(old(lookups).pending@, nonce)->0.sink,
        ) && final(lookups).pending@ == without(old(lookups).pending@, nonce),
        !old(lookups).is_asked(nonce, peer) ==> sink is None && final(lookups).pending@ == old(
            lookups).pending@,
{
    match lookups.take_from(nonce, peer) {
        Some(pending) => Some(pending.sink),
        None => None,
    }
}

/// Starts a lookup at the Up member advertising the address: who to send what.
pub fn begin_lookup<S>(
    membership: &Membership,
    lookups: &mut PendingLookups<S>,
    key: WireKey,
    addr: SocketAddr,
    sink: S,
) -> (r: Result<(NodeId, Frame), LookupError>)
    requires
        membership.wf(),
        old(lookups).wf(),
    ensures
        final(lookups).wf(),
        membership@.up_member_at(addr) is None ==> r == Err::<(NodeId, Frame), LookupError>(
            LookupError::NotAMember(addr),
        ) && *final(lookups) == *old(lookups),
        membership@.up_member_at(addr) is Some ==> final(lookups).next_nonce == following_nonce(
            old(lookups).next_nonce,
        ),
        membership@.up_member_at(addr) matches Some(node) ==> {
            let nonce = Nonce(old(lookups).next_nonce);
            &&& r matches Ok((to, frame)) && to == node && frame.deep_view()
                == (FrameModel::Lookup { nonce, key: key.deep_view() })
            &&& final(lookups).pending@ == put(
                old(lookups).pending@,
                nonce,
                PendingLookup { peer: node, key, sink },
            )
        },
{
    match membership.up_member_at(addr) {
        Some(node) => {
            let sent = key.copy();
            let nonce = lookups.add(node, key, sink);
            Ok((node, Frame::Lookup { nonce, key: sent }))
        },
        None => Err(LookupError::NotAMember(addr)),
    }
}

/// What a lookup resolves to, given the answer and, for a found actor, its resolved reference.
pub fn finish_lookup<R>(result: LookupResult, resolved: Result<R, LocalRefError>) -> (r: Result<
    R,
    LookupError,
>)
    ensures
        result is NotFound ==> r == Err::<R, LookupError>(LookupError::NotFound),
        result is TypeMismatch ==> r == Err::<R, LookupError>(LookupError::TypeMismatch),
        result is Found ==> match resolved {
            Ok(reference) => r == Ok::<R, LookupError>(reference),
            Err(LocalRefError::MessageType) => r == Err::<R, LookupError>(
                LookupError::TypeMismatch,
            ),
            Err(LocalRefError::Unbound) => r == Err::<R, LookupError>(LookupError::NotFound),
        },
{
    match result {
        LookupResult::Found { .. } => match resolved {
            Ok(reference) => Ok(reference),
            Err(LocalRefError::MessageType) => Err(LookupError::TypeMismatch),
            Err(LocalRefError::Unbound) => Err(LookupError::NotFound),
        },
        LookupResult::NotFound => Err(LookupError::NotFound),
        LookupResult::TypeMismatch => Err(LookupError::TypeMismatch),
    }
}

/// What is asked again of a reconnected peer: every lookup sent to it and not answered, and none sent
/// to another.
pub proof fn unanswered_lookups_are_asked_again<S>(
    pending: Seq<(Nonce, PendingLookup<S>)>,
    peer: NodeId,
    nonce: Nonce,
    key: WireKeyModel,
)
    ensures
        lookup_frames(pending, peer).contains(FrameModel::Lookup { nonce, key }) <==> exists|i: int|
            0 <= i < pending.len() && (#[trigger] pending[i]).0 == nonce && pending[i].1.peer == peer
                && pending[i].1.key.deep_view() == key,
{
    let asked = pending.filter(is_lookup_to(peer));
    let frames = lookup_frames(pending, peer);
    if frames.contains(FrameModel::Lookup { nonce, key }) {
        let j = choose|j: int|
            0 <= j < frames.len() && frames[j] == (FrameModel::Lookup { nonce, key });
        assert(asked.contains(asked[j]));
        crate::seqs::lemma_filter_contains(pending, is_lookup_to(peer), asked[j]);
        let i = choose|i: int| 0 <= i < pending.len() && pending[i] == asked[j];
        assert(pending[i].0 == nonce);
    }
    if exists|i: int|
        0 <= i < pending.len() && (#[trigger] pending[i]).0 == nonce && pending[i].1.peer == peer
            && pending[i].1.key.deep_view() == key {
        let i = choose|i: int|
            0 <= i < pending.len() && (#[trigger] pending[i]).0 == nonce && pending[i].1.peer
                == peer && pending[i].1.key.deep_view() == key;
        crate::seqs::lemma_filter_contains(pending, is_lookup_to(peer), pending[i]);
        let j = choose|j: int| 0 <= j < asked.len() && asked[j] == pending[i];
        assert(frames[j] == (FrameModel::Lookup { nonce, key }));
    }
}

/// A lookup is given up with its node's address and with its node's death, and with nothing else.
pub proof fn a_lookup_is_given_up_with_its_node<S>(
    lookup: (Nonce, PendingLookup<S>),
    addr: SocketAddr,
    fence: NodeId,
)
    ensures
        is_lookup_elsewhere(addr)(lookup) <==> lookup.1.peer.addr != addr,
        is_lookup_beyond(fence)(lookup) <==> lookup.1.peer.addr != fence.addr
            || lookup.1.peer.incarnation.0 > fence.incarnation.0,
{
}

/// A lookup ends with a reference where the actor was found and is of the type asked for; it fails as
/// not found where there is none, and as a mismatch where it is of another type.
pub proof fn a_lookup_ends_with_what_was_found<R>(
    result: LookupResult,
    resolved: Result<R, LocalRefError>,
    r: Result<R, LookupError>,
)
    requires
        call_ensures(finish_lookup::<R>, (result, resolved), r),
    ensures
        r is Ok <==> result is Found && resolved is Ok,
        r is Ok ==> r->Ok_0 == resolved->Ok_0,
        r == Err::<R, LookupError>(LookupError::NotFound) <==> result is NotFound || (result is Found
            && resolved == Err::<R, LocalRefError>(LocalRefError::Unbound)),
        r == Err::<R, LookupError>(LookupError::TypeMismatch) <==> result is TypeMismatch || (result
            is Found && resolved == Err::<R, LocalRefError>(LocalRefError::MessageType)),
{
}

} // verus!
