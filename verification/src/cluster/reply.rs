//! Reply destinations which travel: a request carries a nonce per destination, and the peer it was
//! sent to answers under that nonce.

use vstd::prelude::*;

use crate::addr::SocketAddr;
use crate::cluster::frame::{Frame, FrameModel};
use crate::cluster::discovery::following_nonce;
use crate::ids::{ActorId, Nonce, NodeId};
use crate::request_response::ReplyTo;
use crate::table::{value_of, Table};

verus! {

/// A reply destination a message carries. It is repeated in the frame, so a node which cannot
/// decode the message can still answer each.
#[derive(Debug, Clone, Copy, PartialEq, Eq, Structural)]
pub struct ReplyTag {
    pub nonce: Nonce,
    pub recipient: Option<ActorId>,
}

/// A reply destination which cannot be serialized or resolved.
#[derive(Debug, Clone, Copy, PartialEq, Eq, Structural)]
pub enum ReplyToError {
    /// The remoting endpoint has not been started.
    EndpointNotStarted,
    /// A destination travels once.
    AlreadySerialized,
    /// No destination of this node is pending under the nonce.
    NoPendingReply,
    /// The pending destination expects replies of another type.
    ReplyType,
}

/// A destination a reply is awaited for: the peer it was sent to once it is, the actor the reply is
/// delivered to if there is one, and the sink which delivers it. Dropping the sink resolves the
/// request as not replied to.
#[derive(Debug)]
pub struct PendingReply<S> {
    pub peer: Option<NodeId>,
    pub recipient: Option<ActorId>,
    pub sink: S,
}

/// The destinations replies are awaited for.
#[derive(Debug)]
pub struct PendingReplies<S> {
    pub next_nonce: u64,
    pub pending: Table<Nonce, PendingReply<S>>,
}

/// Some tag has the nonce and, if asked for, no recipient.
pub open spec fn is_tagged(tags: Seq<ReplyTag>, nonce: Nonce, ask_only: bool) -> bool {
    exists|i: int|
        0 <= i < tags.len() && (#[trigger] tags[i]).nonce == nonce && (ask_only
            ==> tags[i].recipient is None)
}

pub open spec fn stamped<S>(
    pending: Map<Nonce, PendingReply<S>>,
    tags: Seq<ReplyTag>,
    peer: NodeId,
) -> Map<Nonce, PendingReply<S>> {
    Map::new(
        |n: Nonce| pending.dom().contains(n),
        |n: Nonce|
            if is_tagged(tags, n, false) {
                PendingReply { peer: Some(peer), ..pending[n] }
            } else {
                pending[n]
            },
    )
}

/// The pending replies of which something holds.
pub open spec fn replies_where<S>(
    map: Map<Nonce, PendingReply<S>>,
    keep: spec_fn(PendingReply<S>) -> bool,
) -> Map<Nonce, PendingReply<S>> {
    Map::new(|n: Nonce| map.dom().contains(n) && keep(map[n]), |n: Nonce| map[n])
}

pub open spec fn is_for_another<S>(recipient: ActorId) -> spec_fn(PendingReply<S>) -> bool {
    |r: PendingReply<S>| r.recipient != Some(recipient)
}

pub open spec fn is_asked_elsewhere<S>(addr: SocketAddr) -> spec_fn(PendingReply<S>) -> bool {
    |r: PendingReply<S>| !(r.peer matches Some(peer) && peer.addr == addr)
}

pub open spec fn is_asked_beyond<S>(fence: NodeId) -> spec_fn(PendingReply<S>) -> bool {
    |r: PendingReply<S>| !(r.peer matches Some(peer) && fence.fences(peer))
}

pub open spec fn untagged<S>(
    pending: Map<Nonce, PendingReply<S>>,
    tags: Seq<ReplyTag>,
    ask_only: bool,
) -> Map<Nonce, PendingReply<S>> {
    Map::new(
        |n: Nonce| pending.dom().contains(n) && !is_tagged(tags, n, ask_only),
        |n: Nonce| pending[n],
    )
}

proof fn lemma_tagged_step(tags: Seq<ReplyTag>, i: int, nonce: Nonce, ask_only: bool)
    requires
        0 <= i < tags.len(),
    ensures
        is_tagged(tags.take(i + 1), nonce, ask_only) == (is_tagged(tags.take(i), nonce, ask_only)
            || (tags[i].nonce == nonce && (ask_only ==> tags[i].recipient is None))),
{
    if is_tagged(tags.take(i + 1), nonce, ask_only) {
        let j = choose|j: int|
            0 <= j < i + 1 && (#[trigger] tags.take(i + 1)[j]).nonce == nonce && (ask_only
                ==> tags.take(i + 1)[j].recipient is None);
        if j < i {
            assert(tags.take(i)[j].nonce == nonce);
        }
    }
    if is_tagged(tags.take(i), nonce, ask_only) {
        let j = choose|j: int|
            0 <= j < i && (#[trigger] tags.take(i)[j]).nonce == nonce && (ask_only
                ==> tags.take(i)[j].recipient is None);
        assert(tags.take(i + 1)[j].nonce == nonce);
    }
    assert(tags.take(i + 1)[i] == tags[i]);
}

impl<S> PendingReplies<S> {
    pub open spec fn wf(&self) -> bool {
        self.pending.wf()
    }

    pub open spec fn map(&self) -> Map<Nonce, PendingReply<S>> {
        self.pending.map()
    }

    pub fn new() -> (replies: Self)
        ensures
            replies.wf(),
            replies.next_nonce == 0,
            replies.map() == Map::<Nonce, PendingReply<S>>::empty(),
    {
        PendingReplies { next_nonce: 0, pending: Table::new() }
    }

    /// Records a destination under a nonce of its own. One whose recipient has terminated already
    /// can never receive the reply, so it is not kept.
    pub fn add(&mut self, sink: S, recipient: Option<ActorId>, recipient_terminated: bool) -> (nonce:
        Nonce)
        requires
            old(self).wf(),
        ensures
            final(self).wf(),
            nonce.0 == old(self).next_nonce,
            final(self).next_nonce == if old(self).next_nonce == u64::MAX {
                0
            } else {
                old(self).next_nonce + 1
            },
            final(self).map() == if recipient_terminated {
                old(self).map().remove(nonce)
            } else {
                old(self).map().insert(nonce, PendingReply { peer: None, recipient, sink })
            },
    {
        let nonce = Nonce::mint(&mut self.next_nonce);
        let ghost before = self.map();
        self.pending.insert(nonce, PendingReply { peer: None, recipient, sink });
        if recipient_terminated {
            self.pending.remove(nonce);
            assert(self.map() =~= before.remove(nonce));
        }
        nonce
    }

    /// Records the peer the tagged destinations are sent to, which arms their eviction with that
    /// node's death or its lane's end.
    pub fn stamp(&mut self, tags: &[ReplyTag], peer: NodeId)
        requires
            old(self).wf(),
        ensures
            final(self).wf(),
            final(self).next_nonce == old(self).next_nonce,
            final(self).map() == stamped(old(self).map(), tags@, peer),
    {
        let ghost before = self.map();
        let mut i: usize = 0;
        assert(stamped(before, tags@.take(0), peer) =~= before);
        while i < tags.len()
            invariant
                self.wf(),
                self.next_nonce == old(self).next_nonce,
                i <= tags@.len(),
                self.map() == stamped(before, tags@.take(i as int), peer),
            decreases tags@.len() - i,
        {
            let nonce = tags[i].nonce;
            let ghost so_far = self.map();
            match self.pending.remove(nonce) {
                Some(mut entry) => {
                    entry.peer = Some(peer);
                    self.pending.insert(nonce, entry);
                },
                None => {},
            }
            proof {
                let after = stamped(before, tags@.take(i + 1), peer);
                assert forall|n: Nonce|
                    self.map().dom().contains(n) == after.dom().contains(n) && (
                    self.map().dom().contains(n) ==> self.map()[n] == after[n]) by {
                    lemma_tagged_step(tags@, i as int, n, false);
                    assert(so_far.dom().contains(n) == before.dom().contains(n));
                    if n != nonce {
                        assert(self.map().dom().contains(n) == so_far.dom().contains(n));
                    }
                }
                assert(self.map() =~= after);
            }
            i = i + 1;
        }
        assert(tags@.take(i as int) =~= tags@);
    }

    fn drop_tagged(&mut self, tags: &[ReplyTag], ask_only: bool)
        requires
            old(self).wf(),
        ensures
            final(self).wf(),
            final(self).next_nonce == old(self).next_nonce,
            final(self).map() == untagged(old(self).map(), tags@, ask_only),
    {
        let ghost before = self.map();
        let mut i: usize = 0;
        assert(untagged(before, tags@.take(0), ask_only) =~= before);
        while i < tags.len()
            invariant
                self.wf(),
                self.next_nonce == old(self).next_nonce,
                i <= tags@.len(),
                self.map() == untagged(before, tags@.take(i as int), ask_only),
            decreases tags@.len() - i,
        {
            if !ask_only || tags[i].recipient.is_none() {
                self.pending.remove(tags[i].nonce);
            }
            proof {
                let after = untagged(before, tags@.take(i + 1), ask_only);
                assert forall|n: Nonce| self.map().dom().contains(n) == after.dom().contains(n) by {
                    lemma_tagged_step(tags@, i as int, n, ask_only);
                }
                assert(self.map() =~= after);
            }
            i = i + 1;
        }
        assert(tags@.take(i as int) =~= tags@);
    }

    /// Releases the tagged destinations, whose request is known never to reach its peer.
    pub fn discard(&mut self, tags: &[ReplyTag])
        requires
            old(self).wf(),
        ensures
            final(self).wf(),
            final(self).next_nonce == old(self).next_nonce,
            final(self).map() == untagged(old(self).map(), tags@, false),
    {
        self.drop_tagged(tags, false);
    }

    /// Releases only the destinations no actor awaits; those are their actor's to wait for.
    pub fn discard_ask(&mut self, tags: &[ReplyTag])
        requires
            old(self).wf(),
        ensures
            final(self).wf(),
            final(self).next_nonce == old(self).next_nonce,
            final(self).map() == untagged(old(self).map(), tags@, true),
    {
        self.drop_tagged(tags, true);
    }

    /// Releases the destinations of an actor which has terminated: a request of an actor has no
    /// timeout, so its entry must not outlive the actor.
    pub fn fail_recipient(&mut self, recipient: ActorId)
        requires
            old(self).wf(),
        ensures
            final(self).wf(),
            final(self).next_nonce == old(self).next_nonce,
            final(self).map() == replies_where(old(self).map(), is_for_another(recipient)),
    {
        let ghost p = |e: (Nonce, PendingReply<S>)| e.1.recipient != Some(recipient);
        let keep = |nonce: &Nonce, entry: &PendingReply<S>| -> (r: bool)
            ensures
                r == (entry.recipient != Some(recipient)),
            {
                match entry.recipient {
                    Some(actor) => actor != recipient,
                    None => true,
                }
            };
        self.pending.retain(keep, Ghost(p));
        proof {
            crate::table::lemma_filter_map(old(self).pending@, p);
            assert(self.map() =~= replies_where(old(self).map(), is_for_another(recipient)));
        }
    }

    /// Releases what was sent to any incarnation at the address; what was not sent yet stays.
    pub fn fail_addr(&mut self, addr: SocketAddr)
        requires
            old(self).wf(),
        ensures
            final(self).wf(),
            final(self).next_nonce == old(self).next_nonce,
            final(self).map() == replies_where(old(self).map(), is_asked_elsewhere(addr)),
    {
        let ghost p = |e: (Nonce, PendingReply<S>)|
            !(e.1.peer matches Some(peer) && peer.addr == addr);
        let keep = |nonce: &Nonce, entry: &PendingReply<S>| -> (r: bool)
            ensures
                r == !(entry.peer matches Some(peer) && peer.addr == addr),
            {
                match entry.peer {
                    Some(peer) => peer.addr != addr,
                    None => true,
                }
            };
        self.pending.retain(keep, Ghost(p));
        proof {
            crate::table::lemma_filter_map(old(self).pending@, p);
            assert(self.map() =~= replies_where(old(self).map(), is_asked_elsewhere(addr)));
        }
    }

    /// Releases what was sent to an incarnation the fence covers; what was not sent yet and what was
    /// sent to a successor stays.
    pub fn fail_fenced(&mut self, fence: NodeId)
        requires
            old(self).wf(),
        ensures
            final(self).wf(),
            final(self).next_nonce == old(self).next_nonce,
            final(self).map() == replies_where(old(self).map(), is_asked_beyond(fence)),
    {
        let ghost p = |e: (Nonce, PendingReply<S>)|
            !(e.1.peer matches Some(peer) && fence.fences(peer));
        let keep = |nonce: &Nonce, entry: &PendingReply<S>| -> (r: bool)
            ensures
                r == !(entry.peer matches Some(peer) && fence.fences(peer)),
            {
                match entry.peer {
                    Some(peer) => !fence.covers(peer),
                    None => true,
                }
            };
        self.pending.retain(keep, Ghost(p));
        proof {
            crate::table::lemma_filter_map(old(self).pending@, p);
            assert(self.map() =~= replies_where(old(self).map(), is_asked_beyond(fence)));
        }
    }

    /// Takes a destination out, at most once per nonce.
    pub fn take(&mut self, nonce: Nonce) -> (taken: Option<PendingReply<S>>)
        requires
            old(self).wf(),
        ensures
            final(self).wf(),
            final(self).next_nonce == old(self).next_nonce,
            final(self).map() == old(self).map().remove(nonce),
            taken == value_of(old(self).pending@, nonce),
            taken is Some == old(self).map().dom().contains(nonce),
            taken matches Some(entry) ==> entry == old(self).map()[nonce],
    {
        self.pending.remove(nonce)
    }

    pub open spec fn is_asked(&self, nonce: Nonce, peer: NodeId) -> bool {
        self.map().dom().contains(nonce) && self.map()[nonce].peer == Some(peer)
    }

    /// Takes a destination out for the peer the request was sent to: a nonce is unique to this node
    /// only, so nobody else settles it, and nobody settles one which was not sent yet.
    pub fn take_from(&mut self, nonce: Nonce, peer: NodeId) -> (taken: Option<PendingReply<S>>)
        requires
            old(self).wf(),
        ensures
            final(self).wf(),
            final(self).next_nonce == old(self).next_nonce,
            old(self).is_asked(nonce, peer) ==> final(self).map() == old(self).map().remove(nonce)
                && taken == Some(old(self).map()[nonce]),
            !old(self).is_asked(nonce, peer) ==> taken is None && *final(self) == *old(self),
    {
        let asked = match self.pending.get(nonce) {
            Some(entry) => match entry.peer {
                Some(asked) => asked == peer,
                None => false,
            },
            None => false,
        };
        if asked {
            self.pending.remove(nonce)
        } else {
            None
        }
    }
}

/// The destinations of one request, released however it ends unless it was answered.
#[derive(Debug)]
pub struct AskReplyTags {
    pub tags: Vec<ReplyTag>,
}

impl AskReplyTags {
    pub fn new(tags: Vec<ReplyTag>) -> (guard: Self)
        ensures
            guard.tags@ == tags@,
    {
        AskReplyTags { tags }
    }

    /// Once the request resolved its entry was taken or dropped with it, so nothing is left to
    /// release.
    pub fn disarm(&mut self)
        ensures
            final(self).tags@.len() == 0,
    {
        self.tags.clear();
    }

    /// Ends the request.
    pub fn release<S>(self, pending: &mut PendingReplies<S>)
        requires
            old(pending).wf(),
        ensures
            final(pending).wf(),
            final(pending).next_nonce == old(pending).next_nonce,
            final(pending).map() == untagged(old(pending).map(), self.tags@, true),
    {
        pending.discard_ask(self.tags.as_slice());
    }
}

/// The recording of the destinations minted while one message is encoded.
#[derive(Debug)]
pub struct Minting {
    pub recording: Option<Vec<ReplyTag>>,
}

pub open spec fn recorded(recording: Option<Vec<ReplyTag>>) -> Option<Seq<ReplyTag>> {
    match recording {
        Some(tags) => Some(tags@),
        None => None,
    }
}

impl View for Minting {
    type V = Option<Seq<ReplyTag>>;

    open spec fn view(&self) -> Option<Seq<ReplyTag>> {
        recorded(self.recording)
    }
}

impl Minting {
    /// Nothing is recorded.
    pub fn new() -> (minting: Self)
        ensures
            minting@ is None,
    {
        Minting { recording: None }
    }

    /// Notes a destination minted, if a recording is under way.
    pub fn note_minted(&mut self, tag: ReplyTag)
        ensures
            final(self)@ == match old(self)@ {
                Some(tags) => Some(tags.push(tag)),
                None => None,
            },
    {
        match &mut self.recording {
            Some(tags) => {
                tags.push(tag);
            },
            None => {},
        }
    }

    /// Starts a recording and hands out the one under way, to be given back at the end.
    pub fn begin(&mut self) -> (outer: Option<Vec<ReplyTag>>)
        ensures
            recorded(outer) == old(self)@,
            final(self)@ == Some(Seq::<ReplyTag>::empty()),
    {
        let mut outer: Option<Vec<ReplyTag>> = Some(Vec::new());
        std::mem::swap(&mut self.recording, &mut outer);
        outer
    }

    /// Ends a recording: hands out what it noted and goes on with the outer one.
    pub fn end(&mut self, outer: Option<Vec<ReplyTag>>) -> (tags: Vec<ReplyTag>)
        ensures
            final(self)@ == recorded(outer),
            tags@ == match old(self)@ {
                Some(tags) => tags,
                None => Seq::empty(),
            },
    {
        let mut ended = outer;
        std::mem::swap(&mut self.recording, &mut ended);
        match ended {
            Some(tags) => tags,
            None => Vec::new(),
        }
    }
}

pub open spec fn reply_dropped_frames(tags: Seq<ReplyTag>) -> Seq<FrameModel> {
    tags.map_values(
        |t: ReplyTag| FrameModel::ReplyDropped { nonce: t.nonce, recipient: t.recipient },
    )
}

/// The notifications owed for a message dead-lettered undecoded, one per destination it carried.
pub fn on_undeliverable(reply_tags: &[ReplyTag]) -> (frames: Vec<Frame>)
    ensures
        frames.deep_view() == reply_dropped_frames(reply_tags@),
{
    let mut frames: Vec<Frame> = Vec::new();
    let mut i: usize = 0;
    assert(frames.deep_view() =~= reply_dropped_frames(reply_tags@).take(0));
    while i < reply_tags.len()
        invariant
            i <= reply_tags@.len(),
            frames@.len() == i,
            frames.deep_view() =~= reply_dropped_frames(reply_tags@).take(i as int),
        decreases reply_tags@.len() - i,
    {
        let ghost before = frames.deep_view();
        let tag = reply_tags[i];
        assert(tag.recipient.deep_view() == tag.recipient);
        frames.push(Frame::ReplyDropped { nonce: tag.nonce, recipient: tag.recipient });
        proof {
            assert(frames.deep_view() =~= before.push(reply_dropped_frames(reply_tags@)[i as int]));
        }
        i = i + 1;
    }
    assert(reply_dropped_frames(reply_tags@).take(i as int) =~= reply_dropped_frames(reply_tags@));
    frames
}

/// A reply destination as it travels.
#[derive(Debug, Clone, Copy, PartialEq, Eq, Structural)]
pub struct WireReplyTo {
    pub node: NodeId,
    pub nonce: Nonce,
    pub recipient: Option<ActorId>,
}

/// Where a deserialized reply destination leads.
#[derive(Debug)]
pub enum ResolvedReplyTo<S> {
    /// Back to a destination of this node, whose pending entry it takes.
    Local { sink: S, recipient: Option<ActorId> },
    /// To another node.
    Remote(WireReplyTo),
}

/// Turns a destination into its form on the wire: its sink is taken out and awaits the reply here,
/// under a nonce which is noted for the message being encoded. A destination travels once.
pub fn serialize_reply_to<R, F: FnOnce(R)>(
    node: NodeId,
    pending: Option<&mut PendingReplies<F>>,
    minting: &mut Minting,
    reply_to: &mut ReplyTo<R, F>,
    recipient_terminated: bool,
) -> (r: Result<WireReplyTo, ReplyToError>)
    requires
        pending matches Some(p) ==> p.wf(),
    ensures
        final(reply_to).spec_recipient() == old(reply_to).spec_recipient(),
        pending is None ==> {
            &&& r == Err::<WireReplyTo, ReplyToError>(ReplyToError::EndpointNotStarted)
            &&& final(reply_to).sink() == old(reply_to).sink()
            &&& final(minting)@ == old(minting)@
        },
        pending matches Some(p) ==> {
            let recipient = old(reply_to).spec_recipient();
            let nonce = Nonce(p.next_nonce);
            &&& final(p).wf()
            &&& match old(reply_to).sink() {
                None => {
                    &&& r == Err::<WireReplyTo, ReplyToError>(ReplyToError::AlreadySerialized)
                    &&& *final(p) == *p
                    &&& final(reply_to).sink() is None
                    &&& final(minting)@ == old(minting)@
                },
                Some(sink) => {
                    &&& r == Ok::<WireReplyTo, ReplyToError>(WireReplyTo { node, nonce, recipient })
                    &&& final(p).next_nonce == following_nonce(p.next_nonce)
                    &&& final(p).map() == if recipient_terminated {
                        p.map().remove(nonce)
                    } else {
                        p.map().insert(nonce, PendingReply { peer: None, recipient, sink })
                    }
                    &&& final(reply_to).sink() is None
                    &&& final(minting)@ == noted(
                        old(minting)@,
                        seq![ReplyTag { nonce, recipient }],
                    )
                },
            }
        },
{
    let pending = match pending {
        Some(pending) => pending,
        None => return Err(ReplyToError::EndpointNotStarted),
    };
    let sink = match reply_to.take_send_reply() {
        Some(sink) => sink,
        None => return Err(ReplyToError::AlreadySerialized),
    };
    let recipient = reply_to.recipient();
    let nonce = pending.add(sink, recipient, recipient_terminated);
    let tag = ReplyTag { nonce, recipient };
    minting.note_minted(tag);
    proof {
        reveal_with_fuel(noted, 2);
        assert(seq![tag].drop_last() =~= Seq::empty());
    }
    Ok(WireReplyTo { node, nonce, recipient })
}

/// Resolves a destination which arrived: one of this node comes home to its sink, once.
pub fn resolve_reply_to<S>(
    node: NodeId,
    pending: Option<&mut PendingReplies<S>>,
    arrived: WireReplyTo,
) -> (r: Result<ResolvedReplyTo<S>, ReplyToError>)
    requires
        pending matches Some(p) ==> p.wf(),
    ensures
        pending is None ==> r == Err::<ResolvedReplyTo<S>, ReplyToError>(
            ReplyToError::EndpointNotStarted,
        ),
        pending matches Some(p) ==> {
            &&& final(p).wf()
            &&& final(p).next_nonce == p.next_nonce
            &&& arrived.node != node ==> {
                &&& final(p).map() == p.map()
                &&& r == Ok::<ResolvedReplyTo<S>, ReplyToError>(ResolvedReplyTo::Remote(arrived))
            }
            &&& arrived.node == node ==> {
                &&& final(p).map() == p.map().remove(arrived.nonce)
                &&& r == if p.map().dom().contains(arrived.nonce) {
                    Ok::<ResolvedReplyTo<S>, ReplyToError>(
                        ResolvedReplyTo::Local {
                            sink: p.map()[arrived.nonce].sink,
                            recipient: arrived.recipient,
                        },
                    )
                } else {
                    Err::<ResolvedReplyTo<S>, ReplyToError>(ReplyToError::NoPendingReply)
                }
            }
        },
{
    let pending = match pending {
        Some(pending) => pending,
        None => return Err(ReplyToError::EndpointNotStarted),
    };
    if arrived.node == node {
        match pending.take(arrived.nonce) {
            Some(entry) => Ok(
                ResolvedReplyTo::Local { sink: entry.sink, recipient: arrived.recipient },
            ),
            None => Err(ReplyToError::NoPendingReply),
        }
    } else {
        Ok(ResolvedReplyTo::Remote(arrived))
    }
}

/// What a recording holds after more destinations were minted.
pub open spec fn noted(recording: Option<Seq<ReplyTag>>, tags: Seq<ReplyTag>) -> Option<
    Seq<ReplyTag>,
>
    decreases tags.len(),
{
    if tags.len() == 0 {
        recording
    } else {
        match noted(recording, tags.drop_last()) {
            Some(held) => Some(held.push(tags.last())),
            None => None,
        }
    }
}

/// A recording holds exactly what was minted during it, in order: one nested in another keeps its
/// destinations to itself, since it starts anew and the outer one goes on from where it was.
pub proof fn recordings_hold_what_was_minted(outer: Seq<ReplyTag>, tags: Seq<ReplyTag>)
    ensures
        noted(Some(Seq::<ReplyTag>::empty()), tags) == Some(tags),
        noted(Some(outer), tags) == Some(outer + tags),
        noted(None, tags) is None,
    decreases tags.len(),
{
    if tags.len() > 0 {
        recordings_hold_what_was_minted(outer, tags.drop_last());
        assert(tags.drop_last().push(tags.last()) =~= tags);
        assert((outer + tags.drop_last()).push(tags.last()) =~= outer + tags);
    } else {
        assert(outer + tags =~= outer);
        assert(tags =~= Seq::<ReplyTag>::empty());
    }
}

/// Only the peer a request was sent to settles it, and only once.
pub proof fn a_reply_settles_once<S>(replies: PendingReplies<S>, nonce: Nonce, peer: NodeId)
    requires
        replies.is_asked(nonce, peer),
    ensures
        !replies.map().remove(nonce).dom().contains(nonce),
        forall|other: NodeId| other != peer ==> !#[trigger] replies.is_asked(nonce, other),
{
}

/// A payload sent names the node its replies come from, for exactly those it carries; a payload which
/// is not sent, or whose asks are settled, takes exactly its own with it.
pub proof fn replies_are_told_by_nonce<S>(
    pending: Map<Nonce, PendingReply<S>>,
    tags: Seq<ReplyTag>,
    peer: NodeId,
    nonce: Nonce,
)
    ensures
        ({
            let carried = exists|i: int| 0 <= i < tags.len() && (#[trigger] tags[i]).nonce == nonce;
            let asked = exists|i: int|
                0 <= i < tags.len() && (#[trigger] tags[i]).nonce == nonce && tags[i].recipient
                    is None;
            let known = pending.dom().contains(nonce);
            let sent = stamped(pending, tags, peer);
            &&& sent.dom().contains(nonce) == known
            &&& known && carried ==> sent[nonce] == (PendingReply {
                peer: Some(peer),
                recipient: pending[nonce].recipient,
                sink: pending[nonce].sink,
            })
            &&& known && !carried ==> sent[nonce] == pending[nonce]
            &&& untagged(pending, tags, false).dom().contains(nonce) == (known && !carried)
            &&& untagged(pending, tags, true).dom().contains(nonce) == (known && !asked)
            &&& known && !carried ==> untagged(pending, tags, false)[nonce] == pending[nonce]
            &&& known && !asked ==> untagged(pending, tags, true)[nonce] == pending[nonce]
        }),
{
}

/// A reply is given up with its recipient, with its node's address and with its node's death, and
/// with nothing else; one whose node is not known yet outlasts both of the latter.
pub proof fn a_reply_is_given_up_with_its_node<S>(
    pending: Map<Nonce, PendingReply<S>>,
    nonce: Nonce,
    actor: ActorId,
    addr: SocketAddr,
    fence: NodeId,
)
    ensures
        ({
            let known = pending.dom().contains(nonce);
            let peer = pending[nonce].peer;
            &&& replies_where(pending, is_for_another(actor)).dom().contains(nonce) == (known
                && pending[nonce].recipient != Some(actor))
            &&& replies_where(pending, is_asked_elsewhere(addr)).dom().contains(nonce) == (known && (
            peer is None || peer->0.addr != addr))
            &&& replies_where(pending, is_asked_beyond(fence)).dom().contains(nonce) == (known && (
            peer is None || peer->0.addr != fence.addr || peer->0.incarnation.0
                > fence.incarnation.0))
            &&& forall|keep: spec_fn(PendingReply<S>) -> bool| #[trigger]
                replies_where(pending, keep).dom().contains(nonce) ==> replies_where(
                    pending,
                    keep,
                )[nonce] == pending[nonce]
        }),
{
}

/// A destination can be put on the wire once: it is awaited under a nonce of its own from then on, for
/// its recipient, unless that has ended meanwhile, and sends nothing itself anymore.
pub proof fn a_destination_is_serialized_once<R, F: FnOnce(R)>(
    node: NodeId,
    pending: &mut PendingReplies<F>,
    minting: &mut Minting,
    reply_to: &mut ReplyTo<R, F>,
    recipient_terminated: bool,
    r: Result<WireReplyTo, ReplyToError>,
)
    requires
        call_ensures(
            serialize_reply_to::<R, F>,
            (node, Some(pending), minting, reply_to, recipient_terminated),
            r,
        ),
    ensures
        ({
            let nonce = Nonce(old(pending).next_nonce);
            let recipient = old(reply_to).spec_recipient();
            let sink = old(reply_to).sink();
            &&& sink is None ==> r == Err::<WireReplyTo, ReplyToError>(
                ReplyToError::AlreadySerialized,
            ) && *final(pending) == *old(pending)
            &&& sink is Some ==> r == Ok::<WireReplyTo, ReplyToError>(
                WireReplyTo { node, nonce, recipient },
            )
            &&& sink is Some && !recipient_terminated ==> final(pending).map() == old(
                pending).map().insert(nonce, PendingReply { peer: None, recipient, sink: sink->0 })
            &&& sink is Some && recipient_terminated ==> !final(pending).map().dom().contains(nonce)
            &&& final(reply_to).sink() is None
        }),
{
}

/// A destination which comes back to its own node is the one which was awaited, and not awaited
/// anymore; any other node's is answered over the wire.
pub proof fn a_destination_comes_home<S>(
    node: NodeId,
    pending: &mut PendingReplies<S>,
    arrived: WireReplyTo,
    r: Result<ResolvedReplyTo<S>, ReplyToError>,
)
    requires
        call_ensures(resolve_reply_to::<S>, (node, Some(pending), arrived), r),
    ensures
        ({
            let before = old(pending).map();
            let own = arrived.node == node;
            let awaited = before.dom().contains(arrived.nonce);
            &&& !own ==> r == Ok::<ResolvedReplyTo<S>, ReplyToError>(
                ResolvedReplyTo::Remote(arrived),
            ) && final(pending).map() == before
            &&& own && awaited ==> r == Ok::<ResolvedReplyTo<S>, ReplyToError>(
                ResolvedReplyTo::Local {
                    sink: before[arrived.nonce].sink,
                    recipient: arrived.recipient,
                },
            )
            &&& own && !awaited ==> r == Err::<ResolvedReplyTo<S>, ReplyToError>(
                ReplyToError::NoPendingReply,
            )
            &&& own ==> final(pending).map() == before.remove(arrived.nonce)
        }),
{
}

/// An undeliverable message has each reply it carries reported as dropped, to the recipient it is
/// for.
pub proof fn every_carried_reply_is_reported(tags: Seq<ReplyTag>)
    ensures
        reply_dropped_frames(tags).len() == tags.len(),
        forall|i: int|
            0 <= i < tags.len() ==> #[trigger] reply_dropped_frames(tags)[i]
                == (FrameModel::ReplyDropped {
                nonce: tags[i].nonce,
                recipient: tags[i].recipient,
            }),
{
}

} // verus!
