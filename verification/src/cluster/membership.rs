//! The member list each node keeps and gossips. An entry moves from Up to Down and never back, so
//! lists merged in any order agree; a Down incarnation leaves a watermark which fences it and its
//! predecessors at the address for as long as the watermark is kept.

use vstd::prelude::*;

use crate::addr::SocketAddr;
use crate::cluster::chunks::{chunked, chunks, chunks_join_to_the_whole, entries_per_frame, joined,
    lemma_encodings_bound, lemma_per_frame_fits, per_frame, views};
use crate::cluster::encoding::node_encoding_is_short;
use crate::cluster::frame::{Frame, FrameModel};
use crate::ids::{node_order_is_total, NodeId};
use crate::seqs::{age, elapsed, first, lemma_filter_start, lemma_filter_step, lemma_first_absent,
    lemma_first_found};
use crate::sort::{is_ranked, lemma_ordered, ordered, sort, sorts, Ranked};
use crate::table::{has_key, lemma_filter, put, value_of, without, Table};
use crate::wire::{lemma_cap_values, lemma_varint_len, Wire};

verus! {

/// A member's two-point state lattice: Up is below Down, removal is absence.
#[derive(Debug, Clone, Copy, PartialEq, Eq, Structural)]
pub enum MemberState {
    /// A member: heartbeated, gossiped, connectable.
    Up,
    /// Dead for good: its handshakes are refused and sends towards it fail.
    Down,
}

/// A member of the cluster as this node sees it.
#[derive(Debug, Clone, Copy, PartialEq, Eq, Structural)]
pub struct Member {
    pub node: NodeId,
    pub state: MemberState,
}

impl Member {
    pub fn new(node: NodeId, state: MemberState) -> (member: Self)
        ensures
            member == (Member { node, state }),
    {
        Member { node, state }
    }

    /// The address the member advertises.
    pub fn addr(&self) -> (addr: SocketAddr)
        ensures
            addr == self.node.addr,
    {
        self.node.addr
    }

    /// The member's state.
    pub fn state(&self) -> (state: MemberState)
        ensures
            state == self.state,
    {
        self.state
    }

    pub fn node(&self) -> (node: NodeId)
        ensures
            node == self.node,
    {
        self.node
    }
}

/// Members are listed by address and incarnation.
impl Ranked for Member {
    open spec fn before(self, other: Self) -> bool {
        self.node.before(other.node)
    }

    fn is_before(&self, other: &Self) -> (r: bool) {
        self.node.is_before(&other.node)
    }

    proof fn asymmetric(a: Self, b: Self) {
        NodeId::asymmetric(a.node, b.node);
    }

    proof fn negatively_transitive(a: Self, b: Self, c: Self) {
        NodeId::negatively_transitive(a.node, b.node, c.node);
    }
}

/// A member as gossip carries it.
pub type WireMember = Member;

/// A cluster which cannot be joined.
#[derive(Debug, Clone, Copy, PartialEq, Eq, Structural)]
pub enum JoinError {
    /// The remoting endpoint has not been started.
    EndpointNotStarted,
    /// No seed addresses other than this node's own were given, and joining never forms.
    NoSeeds,
    /// This node's incarnation has been downed by the cluster.
    Downed,
}

/// The members cannot be listed.
#[derive(Debug, Clone, Copy, PartialEq, Eq, Structural)]
pub enum MembersError {
    /// The remoting endpoint has not been started.
    EndpointNotStarted,
}

/// A member cannot be downed.
#[derive(Debug, Clone, Copy, PartialEq, Eq, Structural)]
pub enum DownError {
    /// The remoting endpoint has not been started.
    EndpointNotStarted,
    /// No Up member advertises this address.
    NotAMember(SocketAddr),
    /// The address is this node's own, which leaves rather than being downed.
    ThisNode,
}

/// The state of a member and the instant it took it.
#[derive(Debug, Clone, Copy, PartialEq, Eq, Structural)]
pub struct MemberEntry {
    pub state: MemberState,
    pub changed_at: u128,
}

/// What a death changed.
#[derive(Debug, Clone, Copy, PartialEq, Eq, Structural)]
pub struct DownOutcome {
    pub member_changed: bool,
    pub watermark_changed: bool,
}

/// What [Membership::merge] asks its caller to do.
#[derive(Debug)]
pub struct Merge {
    /// The members learned.
    pub new_up: Vec<NodeId>,
    /// The incarnations to run a node death for.
    pub to_down: Vec<NodeId>,
    /// The fences learned, whose state is to be flushed.
    pub to_flush: Vec<NodeId>,
    /// This node has been downed.
    pub self_down: bool,
}

/// A [Merge] by value.
#[verifier::ext_equal]
pub struct MergeModel {
    pub new_up: Seq<NodeId>,
    pub to_down: Seq<NodeId>,
    pub to_flush: Seq<NodeId>,
    pub self_down: bool,
}

impl View for Merge {
    type V = MergeModel;

    open spec fn view(&self) -> MergeModel {
        MergeModel {
            new_up: self.new_up@,
            to_down: self.to_down@,
            to_flush: self.to_flush@,
            self_down: self.self_down,
        }
    }
}

/// A merge under way; once stopped the rest of the gossip is not looked at.
#[verifier::ext_equal]
pub struct Merging {
    pub membership: MembershipModel,
    pub merge: MergeModel,
    pub stopped: bool,
}

/// A [Membership] by value: the entries and the Down watermarks by address.
#[verifier::ext_equal]
pub struct MembershipModel {
    pub node: NodeId,
    pub members: Seq<(NodeId, MemberEntry)>,
    pub down: Seq<(SocketAddr, NodeId)>,
    pub cap: nat,
}

/// The index of the first watermark with the least incarnation.
pub open spec fn is_oldest(down: Seq<(SocketAddr, NodeId)>, i: int) -> bool {
    &&& 0 <= i < down.len()
    &&& forall|j: int|
        0 <= j < down.len() ==> down[i].1.incarnation.0 <= (#[trigger] down[j]).1.incarnation.0
    &&& forall|j: int|
        0 <= j < i ==> down[i].1.incarnation.0 < (#[trigger] down[j]).1.incarnation.0
}

pub open spec fn is_up_at(addr: SocketAddr) -> spec_fn((NodeId, MemberEntry)) -> bool {
    |e: (NodeId, MemberEntry)| e.0.addr == addr && e.1.state == MemberState::Up
}

pub open spec fn is_up_covered(fence: NodeId) -> spec_fn((NodeId, MemberEntry)) -> bool {
    |e: (NodeId, MemberEntry)| fence.fences(e.0) && e.1.state == MemberState::Up
}

pub open spec fn is_up_entry() -> spec_fn((NodeId, MemberEntry)) -> bool {
    |e: (NodeId, MemberEntry)| e.1.state == MemberState::Up
}

pub open spec fn is_up_peer(node: NodeId) -> spec_fn((NodeId, MemberEntry)) -> bool {
    |e: (NodeId, MemberEntry)| e.1.state == MemberState::Up && e.0 != node
}

pub open spec fn is_kept(retention: u128, now: u128) -> spec_fn((NodeId, MemberEntry)) -> bool {
    |e: (NodeId, MemberEntry)|
        !(e.1.state == MemberState::Down && age(now, e.1.changed_at) >= retention)
}

pub open spec fn is_unlisted(members: Seq<(NodeId, MemberEntry)>) -> spec_fn(
    (SocketAddr, NodeId),
) -> bool {
    |e: (SocketAddr, NodeId)| !has_key(members, e.1)
}

pub open spec fn nodes_of(entries: Seq<(NodeId, MemberEntry)>) -> Seq<NodeId> {
    entries.map_values(|e: (NodeId, MemberEntry)| e.0)
}

pub open spec fn members_of(entries: Seq<(NodeId, MemberEntry)>) -> Seq<Member> {
    entries.map_values(|e: (NodeId, MemberEntry)| Member { node: e.0, state: e.1.state })
}

impl MembershipModel {
    pub open spec fn is_up(self, node: NodeId) -> bool {
        value_of(self.members, node) matches Some(entry) && entry.state == MemberState::Up
    }

    /// The watermark of the node's address covers it.
    pub open spec fn is_down(self, node: NodeId) -> bool {
        value_of(self.down, node.addr) matches Some(down) && down.fences(node)
    }

    pub open spec fn up_member_at(self, addr: SocketAddr) -> Option<NodeId> {
        match first(self.members, is_up_at(addr)) {
            Some(e) => Some(e.0),
            None => None,
        }
    }

    pub open spec fn up_peers(self) -> Seq<NodeId> {
        nodes_of(self.members.filter(is_up_peer(self.node)))
    }

    pub open spec fn up_nodes(self) -> Seq<NodeId> {
        nodes_of(self.members.filter(is_up_entry()))
    }

    /// The listed members followed by the watermarks of incarnations no longer listed.
    pub open spec fn handshake_snapshot(self) -> Seq<Member> {
        members_of(self.members) + self.down.filter(is_unlisted(self.members)).map_values(
            |e: (SocketAddr, NodeId)| Member { node: e.1, state: MemberState::Down },
        )
    }

    /// The death is news: no watermark at the address is as young.
    pub open spec fn raises(self, node: NodeId) -> bool {
        !(value_of(self.down, node.addr) matches Some(down) && down.incarnation.0
            >= node.incarnation.0)
    }

    /// The watermark raised to the node, and the oldest one dropped where that exceeds the cap.
    pub open spec fn raised(self, node: NodeId) -> MembershipModel {
        let down = if self.raises(node) {
            put(self.down, node.addr, node)
        } else {
            self.down
        };
        MembershipModel {
            down: if down.len() > self.cap {
                down.remove(choose|i: int| is_oldest(down, i))
            } else {
                down
            },
            ..self
        }
    }

    pub open spec fn with_entry(self, node: NodeId, state: MemberState, at: u128) -> MembershipModel {
        MembershipModel {
            members: put(self.members, node, MemberEntry { state, changed_at: at }),
            ..self
        }
    }

    /// The death of the node recorded.
    pub open spec fn downed(self, node: NodeId, at: u128) -> MembershipModel {
        if self.is_up(node) {
            self.raised(node).with_entry(node, MemberState::Down, at)
        } else {
            self.raised(node)
        }
    }

    pub open spec fn admits(self, node: NodeId) -> bool {
        !self.is_down(node) && !has_key(self.members, node)
    }

    pub open spec fn added_up(self, node: NodeId, at: u128) -> MembershipModel {
        if self.admits(node) {
            self.with_entry(node, MemberState::Up, at)
        } else {
            self
        }
    }

    /// The members ordered by address and incarnation.
    pub open spec fn listed(self) -> Seq<Member> {
        ordered(members_of(self.members))
    }

    pub open spec fn swept(self, retention: u128, now: u128) -> MembershipModel {
        MembershipModel { members: self.members.filter(is_kept(retention, now)), ..self }
    }

    pub open spec fn fresh(node: NodeId, cap: nat, at: u128) -> MembershipModel {
        MembershipModel {
            node,
            members: seq![(node, MemberEntry { state: MemberState::Up, changed_at: at })],
            down: Seq::empty(),
            cap,
        }
    }

    pub open spec fn wf(self) -> bool {
        &&& crate::table::distinct(self.members)
        &&& crate::table::distinct(self.down)
        &&& self.down.len() <= self.cap
        &&& forall|i: int|
            0 <= i < self.down.len() ==> (#[trigger] self.down[i]).1.addr == self.down[i].0
    }
}

proof fn lemma_listed(membership: MembershipModel, sorted: Seq<Member>)
    requires
        membership.wf(),
        sorts(sorted, members_of(membership.members)),
    ensures
        sorted == membership.listed(),
{
    let members = members_of(membership.members);
    assert(is_ranked(members)) by {
        assert forall|i: int, j: int|
            0 <= i < members.len() && 0 <= j < members.len() implies #[trigger] members[i]
            == #[trigger] members[j] || members[i].before(members[j]) || members[j].before(
            members[i],
        ) by {
            node_order_is_total(members[i].node, members[j].node);
            if i < j {
                assert(membership.members[i].0 != membership.members[j].0);
            } else if j < i {
                assert(membership.members[j].0 != membership.members[i].0);
            }
        }
    }
    lemma_ordered(sorted, members);
}

impl Merging {
    pub open spec fn start(membership: MembershipModel) -> Merging {
        Merging {
            membership,
            merge: MergeModel {
                new_up: Seq::empty(),
                to_down: Seq::empty(),
                to_flush: Seq::empty(),
                self_down: false,
            },
            stopped: false,
        }
    }

    /// A death heard of: a raised watermark is flushed, a covering one at this node's address downs
    /// this node, any other downs the Up members it covers.
    pub open spec fn with_down(self, node: NodeId) -> Merging {
        let this = self.membership.node;
        let membership = self.membership.raised(node);
        let to_flush = if self.membership.raises(node) {
            self.merge.to_flush.push(node)
        } else {
            self.merge.to_flush
        };
        if node.fences(this) {
            Merging {
                membership,
                merge: MergeModel { to_flush, self_down: true, ..self.merge },
                ..self
            }
        } else {
            Merging {
                membership,
                merge: MergeModel {
                    to_flush,
                    to_down: self.merge.to_down + nodes_of(
                        membership.members.filter(is_up_covered(node)),
                    ),
                    ..self.merge
                },
                ..self
            }
        }
    }

    /// A member heard of: news unless it is this node, fenced or listed; of two incarnations Up at
    /// one address the older one is to be downed, which ends the merge where that is this node.
    pub open spec fn with_up(self, node: NodeId, at: u128) -> Merging {
        let m = self.membership;
        if node == m.node || !m.admits(node) {
            self
        } else {
            let learned = Merging {
                membership: m.with_entry(node, MemberState::Up, at),
                merge: MergeModel { new_up: self.merge.new_up.push(node), ..self.merge },
                ..self
            };
            match m.up_member_at(node.addr) {
                None => learned,
                Some(superseded) => if superseded.incarnation.0 >= node.incarnation.0 {
                    Merging {
                        merge: MergeModel { to_down: self.merge.to_down.push(node), ..self.merge },
                        ..self
                    }
                } else if superseded == m.node {
                    Merging {
                        merge: MergeModel { self_down: true, ..self.merge },
                        stopped: true,
                        ..self
                    }
                } else {
                    Merging {
                        merge: MergeModel {
                            to_down: self.merge.to_down.push(superseded),
                            ..learned.merge
                        },
                        ..learned
                    }
                },
            }
        }
    }

    pub open spec fn with(self, member: Member, at: u128) -> Merging {
        if self.stopped {
            self
        } else {
            match member.state {
                MemberState::Down => self.with_down(member.node),
                MemberState::Up => self.with_up(member.node, at),
            }
        }
    }

    pub open spec fn with_all(self, members: Seq<Member>, at: u128) -> Merging
        decreases members.len(),
    {
        if members.len() == 0 {
            self
        } else {
            self.with_all(members.drop_last(), at).with(members.last(), at)
        }
    }
}

pub proof fn lemma_oldest_exists(down: Seq<(SocketAddr, NodeId)>) -> (at: int)
    requires
        down.len() > 0,
    ensures
        is_oldest(down, at),
        at == choose|i: int| is_oldest(down, i),
    decreases down.len(),
{
    if down.len() == 1 {
        assert(is_oldest(down, 0));
    } else {
        let r = down.drop_last();
        let i = lemma_oldest_exists(r);
        let last = down.len() - 1;
        if down[last].1.incarnation.0 < r[i].1.incarnation.0 {
            assert forall|j: int| 0 <= j < down.len() implies down[last].1.incarnation.0 <= (
            #[trigger] down[j]).1.incarnation.0 by {
                if j < last {
                    assert(r[j] == down[j]);
                }
            }
            assert forall|j: int| 0 <= j < last implies down[last].1.incarnation.0 < (
            #[trigger] down[j]).1.incarnation.0 by {
                assert(r[j] == down[j]);
            }
            assert(is_oldest(down, last));
        } else {
            assert forall|j: int| 0 <= j < down.len() implies down[i].1.incarnation.0 <= (
            #[trigger] down[j]).1.incarnation.0 by {
                if j < last {
                    assert(r[j] == down[j]);
                }
            }
            assert forall|j: int| 0 <= j < i implies down[i].1.incarnation.0 < (
            #[trigger] down[j]).1.incarnation.0 by {
                assert(r[j] == down[j]);
            }
            assert(is_oldest(down, i));
        }
    }
    let at = choose|i: int| is_oldest(down, i);
    at
}

pub proof fn lemma_oldest_unique(down: Seq<(SocketAddr, NodeId)>, i: int)
    requires
        is_oldest(down, i),
    ensures
        i == choose|j: int| is_oldest(down, j),
{
    let j = choose|j: int| is_oldest(down, j);
    if i < j {
        assert(down[j].1.incarnation.0 < down[i].1.incarnation.0);
    } else if j < i {
        assert(down[i].1.incarnation.0 < down[j].1.incarnation.0);
    }
}

/// The entries of every incarnation this node has heard of and not swept, and the watermarks.
#[derive(Debug)]
pub struct Membership {
    pub(crate) node: NodeId,
    pub(crate) members: Table<NodeId, MemberEntry>,
    pub(crate) down: Table<SocketAddr, NodeId>,
    pub(crate) cap: usize,
}

impl View for Membership {
    type V = MembershipModel;

    open(crate) spec fn view(&self) -> MembershipModel {
        MembershipModel {
            node: self.node,
            members: self.members@,
            down: self.down@,
            cap: self.cap as nat,
        }
    }
}

impl Membership {
    pub open spec fn wf(&self) -> bool {
        self@.wf()
    }

    /// The member list of a node which knows only itself, keeping at most `down_watermarks`
    /// watermarks.
    pub fn new(node: NodeId, down_watermarks: usize, at: u128) -> (membership: Self)
        ensures
            membership.wf(),
            membership@ == MembershipModel::fresh(node, down_watermarks as nat, at),
    {
        let mut members: Table<NodeId, MemberEntry> = Table::new();
        members.insert(node, MemberEntry { state: MemberState::Up, changed_at: at });
        let membership = Membership { node, members, down: Table::new(), cap: down_watermarks };
        assert(membership@.members =~= MembershipModel::fresh(
            node,
            down_watermarks as nat,
            at,
        ).members);
        membership
    }

    /// The node whose member list this is.
    pub fn node(&self) -> (node: NodeId)
        ensures
            node == self@.node,
    {
        self.node
    }

    pub fn is_up(&self, node: NodeId) -> (r: bool)
        requires
            self.wf(),
        ensures
            r == self@.is_up(node),
    {
        match self.members.get(node) {
            Some(entry) => entry.state == MemberState::Up,
            None => false,
        }
    }

    pub fn is_down(&self, node: NodeId) -> (r: bool)
        requires
            self.wf(),
        ensures
            r == self@.is_down(node),
    {
        match self.down.get(node.addr) {
            Some(down) => down.covers(node),
            None => false,
        }
    }

    /// The first Up member at the address.
    pub fn up_member_at(&self, addr: SocketAddr) -> (node: Option<NodeId>)
        ensures
            node == self@.up_member_at(addr),
    {
        let ghost p = is_up_at(addr);
        let mut i: usize = 0;
        while i < self.members.entries.len()
            invariant
                i <= self.members@.len(),
                p == is_up_at(addr),
                forall|j: int| 0 <= j < i ==> !p(#[trigger] self.members@[j]),
            decreases self.members@.len() - i,
        {
            let entry = self.members.entries[i];
            if entry.0.addr == addr && entry.1.state == MemberState::Up {
                proof {
                    lemma_first_found(self.members@, p, i as int);
                }
                return Some(entry.0);
            }
            i = i + 1;
        }
        proof {
            lemma_first_absent(self.members@, p);
        }
        None
    }

    pub fn has_up_member_at(&self, addr: SocketAddr) -> (r: bool)
        ensures
            r == self@.up_member_at(addr) is Some,
    {
        self.up_member_at(addr).is_some()
    }

    /// The Up members but this node.
    pub fn up_peers(&self) -> (peers: Vec<NodeId>)
        ensures
            peers@ == self@.up_peers(),
    {
        let ghost p = is_up_peer(self.node);
        let ghost s = self.members@;
        let mut peers: Vec<NodeId> = Vec::new();
        let mut i: usize = 0;
        proof {
            lemma_filter_start(s, p);
            assert(nodes_of(s.take(0).filter(p)) =~= Seq::empty());
        }
        while i < self.members.entries.len()
            invariant
                i <= s.len(),
                s == self.members@,
                p == is_up_peer(self.node),
                peers@ == nodes_of(s.take(i as int).filter(p)),
            decreases s.len() - i,
        {
            let entry = self.members.entries[i];
            proof {
                lemma_filter_step(s, p, i as int);
            }
            if entry.1.state == MemberState::Up && entry.0 != self.node {
                peers.push(entry.0);
                assert(peers@ =~= nodes_of(s.take(i + 1).filter(p)));
            }
            i = i + 1;
        }
        proof {
            lemma_filter_start(s, p);
        }
        peers
    }

    /// The Up members, this node included.
    pub fn up_nodes(&self) -> (nodes: Vec<NodeId>)
        ensures
            nodes@ == self@.up_nodes(),
    {
        let ghost p = is_up_entry();
        let ghost s = self.members@;
        let mut nodes: Vec<NodeId> = Vec::new();
        let mut i: usize = 0;
        proof {
            lemma_filter_start(s, p);
            assert(nodes_of(s.take(0).filter(p)) =~= Seq::empty());
        }
        while i < self.members.entries.len()
            invariant
                i <= s.len(),
                s == self.members@,
                p == is_up_entry(),
                nodes@ == nodes_of(s.take(i as int).filter(p)),
            decreases s.len() - i,
        {
            let entry = self.members.entries[i];
            proof {
                lemma_filter_step(s, p, i as int);
            }
            if entry.1.state == MemberState::Up {
                nodes.push(entry.0);
                assert(nodes@ =~= nodes_of(s.take(i + 1).filter(p)));
            }
            i = i + 1;
        }
        proof {
            lemma_filter_start(s, p);
        }
        nodes
    }

    /// The members ordered by address and incarnation.
    pub fn members(&self) -> (members: Vec<Member>)
        requires
            self.wf(),
        ensures
            members@ == self@.listed(),
            sorts(members@, members_of(self@.members)),
            members@.len() == self@.members.len(),
    {
        let members = sort(&self.snapshot());
        proof {
            lemma_listed(self@, members@);
        }
        members
    }

    /// The members as gossip carries them.
    pub fn snapshot(&self) -> (members: Vec<WireMember>)
        ensures
            members@ == members_of(self@.members),
    {
        let mut members: Vec<WireMember> = Vec::new();
        let mut i: usize = 0;
        while i < self.members.entries.len()
            invariant
                i <= self.members@.len(),
                members@ == members_of(self.members@.take(i as int)),
            decreases self.members@.len() - i,
        {
            let entry = self.members.entries[i];
            members.push(Member::new(entry.0, entry.1.state));
            i = i + 1;
            assert(members@ =~= members_of(self.members@.take(i as int)));
        }
        assert(self.members@.take(i as int) =~= self.members@);
        members
    }

    /// The members and the watermarks, which only a connection being set up carries: in the
    /// heartbeat they would grow forever.
    pub fn handshake_snapshot(&self) -> (members: Vec<WireMember>)
        requires
            self.wf(),
        ensures
            members@ == self@.handshake_snapshot(),
    {
        let ghost p = is_unlisted(self.members@);
        let ghost s = self.down@;
        let ghost as_down = |e: (SocketAddr, NodeId)|
            Member { node: e.1, state: MemberState::Down };
        let mut members = self.snapshot();
        let ghost listed = members@;
        let mut i: usize = 0;
        proof {
            lemma_filter_start(s, p);
            assert(members@ =~= listed + s.take(0).filter(p).map_values(as_down));
        }
        while i < self.down.entries.len()
            invariant
                self.wf(),
                i <= s.len(),
                s == self.down@,
                p == is_unlisted(self.members@),
                as_down == (|e: (SocketAddr, NodeId)|
                    Member { node: e.1, state: MemberState::Down }),
                members@ == listed + s.take(i as int).filter(p).map_values(as_down),
            decreases s.len() - i,
        {
            let entry = self.down.entries[i];
            proof {
                lemma_filter_step(s, p, i as int);
            }
            if !self.members.contains_key(entry.1) {
                members.push(Member::new(entry.1, MemberState::Down));
                assert(members@ =~= listed + s.take(i + 1).filter(p).map_values(as_down));
            }
            i = i + 1;
        }
        proof {
            lemma_filter_start(s, p);
        }
        members
    }

    /// `true` if the entry is new; a Down entry stays Down.
    pub fn add_up(&mut self, node: NodeId, at: u128) -> (added: bool)
        requires
            old(self).wf(),
        ensures
            final(self).wf(),
            added == old(self)@.admits(node),
            final(self)@ == old(self)@.added_up(node, at),
    {
        if self.is_down(node) || self.members.contains_key(node) {
            return false;
        }
        self.members.insert(node, MemberEntry { state: MemberState::Up, changed_at: at });
        true
    }

    /// Records the death of the incarnation.
    pub fn down(&mut self, node: NodeId, at: u128) -> (outcome: DownOutcome)
        requires
            old(self).wf(),
        ensures
            final(self).wf(),
            final(self)@ == old(self)@.downed(node, at),
            outcome.member_changed == old(self)@.is_up(node),
            outcome.watermark_changed == old(self)@.raises(node),
    {
        let watermark_changed = self.merge_down_watermark(node);
        let member_changed = self.is_up(node);
        if member_changed {
            self.members.insert(node, MemberEntry { state: MemberState::Down, changed_at: at });
        }
        DownOutcome { member_changed, watermark_changed }
    }

    /// Whether the death is news, recording it; the oldest watermark beyond the cap is dropped, so
    /// a death can be news and still leave no watermark.
    fn merge_down_watermark(&mut self, node: NodeId) -> (changed: bool)
        requires
            old(self).wf(),
        ensures
            final(self).wf(),
            final(self)@ == old(self)@.raised(node),
            changed == old(self)@.raises(node),
    {
        let changed = match self.down.get(node.addr) {
            Some(down) => down.incarnation.older_than(node.incarnation),
            None => true,
        };
        let ghost before = self@;
        if changed {
            self.down.insert(node.addr, node);
        }
        let ghost raised = self.down@;
        proof {
            assert forall|i: int| 0 <= i < raised.len() implies (#[trigger] raised[i]).1.addr
                == raised[i].0 by {
                if changed && !(i < before.down.len() && raised[i] == before.down[i]) {
                    assert(raised[i] == (node.addr, node));
                }
            }
        }
        if self.down.len() > self.cap {
            let mut oldest: usize = 0;
            let mut i: usize = 1;
            while i < self.down.entries.len()
                invariant
                    oldest < i <= self.down@.len(),
                    self.down@ == raised,
                    is_oldest(raised.take(i as int), oldest as int),
                decreases self.down@.len() - i,
            {
                let ghost taken = raised.take(i as int);
                let ghost next = raised.take(i + 1);
                proof {
                    assert forall|j: int| 0 <= j < i implies #[trigger] next[j] == taken[j] by {}
                    assert(next[oldest as int] == taken[oldest as int]);
                }
                if self.down.entries[i].1.incarnation.older_than(
                    self.down.entries[oldest].1.incarnation,
                ) {
                    proof {
                        assert forall|j: int| 0 <= j < next.len() implies next[i as int].1.incarnation.0
                            <= (#[trigger] next[j]).1.incarnation.0 by {
                            if j < i {
                                assert(next[j] == taken[j]);
                            }
                        }
                        assert forall|j: int| 0 <= j < i implies next[i as int].1.incarnation.0 < (
                        #[trigger] next[j]).1.incarnation.0 by {
                            assert(next[j] == taken[j]);
                        }
                    }
                    oldest = i;
                } else {
                    proof {
                        assert forall|j: int| 0 <= j < next.len() implies next[oldest as int].1.incarnation.0
                            <= (#[trigger] next[j]).1.incarnation.0 by {
                            if j < i {
                                assert(next[j] == taken[j]);
                            }
                        }
                        assert forall|j: int| 0 <= j < oldest implies next[oldest as int].1.incarnation.0
                            < (#[trigger] next[j]).1.incarnation.0 by {
                            assert(next[j] == taken[j]);
                        }
                    }
                }
                i = i + 1;
            }
            proof {
                assert(raised.take(i as int) =~= raised);
                lemma_oldest_unique(raised, oldest as int);
                crate::table::lemma_key_index(raised, oldest as int);
                crate::table::lemma_without(raised, raised[oldest as int].0);
                assert(without(raised, raised[oldest as int].0) == raised.remove(oldest as int));
                let trimmed = raised.remove(oldest as int);
                assert forall|j: int| 0 <= j < trimmed.len() implies (#[trigger] trimmed[j]).1.addr
                    == trimmed[j].0 by {
                    let k = if j < oldest { j } else { j + 1 };
                    assert(trimmed[j] == raised[k]);
                }
            }
            self.down.entries.remove(oldest);
        }
        changed
    }

    fn covered_up(&self, fence: NodeId) -> (nodes: Vec<NodeId>)
        ensures
            nodes@ == nodes_of(self@.members.filter(is_up_covered(fence))),
    {
        let ghost p = is_up_covered(fence);
        let ghost s = self.members@;
        let mut nodes: Vec<NodeId> = Vec::new();
        let mut i: usize = 0;
        proof {
            lemma_filter_start(s, p);
            assert(nodes_of(s.take(0).filter(p)) =~= Seq::empty());
        }
        while i < self.members.entries.len()
            invariant
                i <= s.len(),
                s == self.members@,
                p == is_up_covered(fence),
                nodes@ == nodes_of(s.take(i as int).filter(p)),
            decreases s.len() - i,
        {
            let entry = self.members.entries[i];
            proof {
                lemma_filter_step(s, p, i as int);
            }
            if fence.covers(entry.0) && entry.1.state == MemberState::Up {
                nodes.push(entry.0);
                assert(nodes@ =~= nodes_of(s.take(i + 1).filter(p)));
            }
            i = i + 1;
        }
        proof {
            lemma_filter_start(s, p);
        }
        nodes
    }

    fn merge_down(&mut self, merge: &mut Merge, node: NodeId)
        requires
            old(self).wf(),
        ensures
            final(self).wf(),
            (Merging { membership: final(self)@, merge: final(merge)@, stopped: false })
                == (Merging { membership: old(self)@, merge: old(merge)@, stopped: false }).with_down(
                node,
            ),
    {
        if self.merge_down_watermark(node) {
            merge.to_flush.push(node);
        }
        if node.covers(self.node) {
            merge.self_down = true;
        } else {
            let mut covered = self.covered_up(node);
            merge.to_down.append(&mut covered);
        }
    }

    /// `false` if this node is superseded, which ends the merge.
    fn merge_up(&mut self, merge: &mut Merge, node: NodeId, at: u128) -> (goes_on: bool)
        requires
            old(self).wf(),
        ensures
            final(self).wf(),
            (Merging { membership: final(self)@, merge: final(merge)@, stopped: !goes_on })
                == (Merging { membership: old(self)@, merge: old(merge)@, stopped: false }).with_up(
                node,
                at,
            ),
    {
        if node == self.node || self.is_down(node) || self.members.contains_key(node) {
            return true;
        }
        if let Some(superseded) = self.up_member_at(node.addr) {
            if superseded.incarnation.older_than(node.incarnation) {
                if superseded == self.node {
                    merge.self_down = true;
                    return false;
                }
                merge.to_down.push(superseded);
            } else {
                merge.to_down.push(node);
                return true;
            }
        }
        self.members.insert(node, MemberEntry { state: MemberState::Up, changed_at: at });
        merge.new_up.push(node);
        true
    }

    /// Merges gossiped members and says what is to be done about them.
    pub fn merge(&mut self, members: &[WireMember], at: u128) -> (merge: Merge)
        requires
            old(self).wf(),
        ensures
            final(self).wf(),
            final(self)@ == Merging::start(old(self)@).with_all(members@, at).membership,
            merge@ == Merging::start(old(self)@).with_all(members@, at).merge,
    {
        let mut merge = Merge {
            new_up: Vec::new(),
            to_down: Vec::new(),
            to_flush: Vec::new(),
            self_down: false,
        };
        let ghost start = Merging::start(self@);
        let mut i: usize = 0;
        assert(merge@ =~= start.merge);
        assert(members@.take(0) =~= Seq::empty());
        while i < members.len()
            invariant
                i <= members@.len(),
                self.wf(),
                start == Merging::start(old(self)@),
                (Merging { membership: self@, merge: merge@, stopped: false }) == start.with_all(
                    members@.take(i as int),
                    at,
                ),
            decreases members@.len() - i,
        {
            let member = members[i];
            let ghost so_far = start.with_all(members@.take(i as int), at);
            proof {
                assert(members@.take(i + 1).drop_last() =~= members@.take(i as int));
                assert(members@.take(i + 1).last() == member);
            }
            match member.state {
                MemberState::Down => {
                    self.merge_down(&mut merge, member.node);
                },
                MemberState::Up => {
                    if !self.merge_up(&mut merge, member.node, at) {
                        proof {
                            lemma_stopped(start, members@, i + 1, at);
                        }
                        return merge;
                    }
                },
            }
            i = i + 1;
        }
        assert(members@.take(i as int) =~= members@);
        merge
    }

    /// Drops Down entries older than the retention; their watermarks remain.
    pub fn sweep(&mut self, retention: u128, now: u128)
        requires
            old(self).wf(),
        ensures
            final(self).wf(),
            final(self)@ == old(self)@.swept(retention, now),
    {
        let ghost p = is_kept(retention, now);
        let ghost s = self.members@;
        let mut kept: Vec<(NodeId, MemberEntry)> = Vec::new();
        let mut i: usize = 0;
        proof {
            lemma_filter_start(s, p);
        }
        while i < self.members.entries.len()
            invariant
                i <= s.len(),
                s == self.members@,
                self@ == old(self)@,
                p == is_kept(retention, now),
                kept@ == s.take(i as int).filter(p),
            decreases s.len() - i,
        {
            let entry = self.members.entries[i];
            proof {
                lemma_filter_step(s, p, i as int);
            }
            if !(entry.1.state == MemberState::Down && elapsed(now, entry.1.changed_at)
                >= retention) {
                kept.push(entry);
            }
            i = i + 1;
        }
        proof {
            lemma_filter_start(s, p);
            lemma_filter(s, p);
        }
        self.members.entries = kept;
    }
}

proof fn lemma_stopped(start: Merging, members: Seq<Member>, i: int, at: u128)
    requires
        0 <= i <= members.len(),
        start.with_all(members.take(i), at).stopped,
    ensures
        start.with_all(members, at) == start.with_all(members.take(i), at),
    decreases members.len() - i,
{
    if i == members.len() {
        assert(members.take(i) =~= members);
    } else {
        assert(members.take(i + 1).drop_last() =~= members.take(i));
        lemma_stopped(start, members, i + 1, at);
    }
}

/// The longest encoding of a member.
pub const MAX_ENCODED_LEN: usize = 40;

/// What a gossip frame adds to its members.
pub const ENVELOPE_LEN: usize = 16;

/// The smallest frame size [snapshot_frames] can respect, one member plus its envelope.
pub const MIN_FRAME_SIZE: usize = MAX_ENCODED_LEN + ENVELOPE_LEN;

/// A snapshot as gossip frames, all but the last marked to be followed by more.
pub open spec fn gossip_frames(members: Seq<Member>, n: nat) -> Seq<FrameModel> {
    if members.len() <= n {
        seq![FrameModel::Gossip { members, more: false }]
    } else {
        Seq::new(
            chunked(members, n).len(),
            |i: int|
                FrameModel::Gossip {
                    members: chunked(members, n)[i],
                    more: i + 1 < chunked(members, n).len(),
                },
        )
    }
}

pub open spec fn members_per_frame(max_frame_size: usize) -> nat {
    per_frame(max_frame_size as int, ENVELOPE_LEN as int, MAX_ENCODED_LEN as int)
}

/// Chunks a snapshot into gossip frames which respect the frame size; arrival order is free.
pub fn snapshot_frames(members: Vec<WireMember>, max_frame_size: usize) -> (frames: Vec<Frame>)
    ensures
        frames.deep_view() == gossip_frames(members@, members_per_frame(max_frame_size)),
{
    let per_chunk: usize = entries_per_frame(max_frame_size, ENVELOPE_LEN, MAX_ENCODED_LEN);
    let ghost expected = gossip_frames(members@, per_chunk as nat);
    let mut frames: Vec<Frame> = Vec::new();
    if members.len() <= per_chunk {
        assert(members.deep_view() =~= members@);
        frames.push(Frame::Gossip { members, more: false });
        assert(frames.deep_view() =~= expected);
        return frames;
    }
    let mut chunks = chunks(&members, per_chunk);
    let count: usize = chunks.len();
    let ghost all = chunked(members@, per_chunk as nat);
    proof {
        chunks_join_to_the_whole(members@, per_chunk as nat);
    }
    assert(views(chunks@).skip(0) =~= all);
    while chunks.len() > 0
        invariant
            per_chunk > 0,
            all == chunked(members@, per_chunk as nat),
            members@.len() > per_chunk,
            expected == gossip_frames(members@, per_chunk as nat),
            count == all.len(),
            frames@.len() + chunks@.len() == count,
            views(chunks@) == all.skip(frames@.len() as int),
            frames.deep_view() =~= expected.take(frames@.len() as int),
        decreases chunks@.len(),
    {
        let ghost before = frames.deep_view();
        let ghost at = frames@.len() as int;
        let ghost pending = views(chunks@);
        assert(views(chunks@)[0] == all[at]);
        let chunk = chunks.remove(0);
        let more = chunks.len() > 0;
        assert(chunk.deep_view() =~= all[at]);
        frames.push(Frame::Gossip { members: chunk, more });
        proof {
            assert(frames.deep_view() =~= before.push(expected[at]));
            assert(expected.take(at + 1) =~= expected.take(at).push(expected[at]));
            assert(views(chunks@) =~= pending.remove(0));
            assert(pending.remove(0) =~= all.skip(at + 1));
        }
    }
    assert(expected.take(count as int) =~= expected);
    frames
}

/// The members of a snapshot's frames, in order.
pub open spec fn gossiped(frames: Seq<FrameModel>) -> Seq<Seq<Member>> {
    frames.map_values(|frame: FrameModel| frame->Gossip_members)
}

/// A snapshot's frames are gossip which joins to the snapshot, and all but the last are followed by
/// more. There is always one.
pub proof fn snapshot_frames_carry_the_snapshot(members: Seq<Member>, max_frame_size: usize)
    ensures
        ({
            let frames = gossip_frames(members, members_per_frame(max_frame_size));
            &&& frames.len() > 0
            &&& joined(gossiped(frames)) == members
            &&& forall|i: int|
                0 <= i < frames.len() ==> (#[trigger] frames[i]) is Gossip
                    && frames[i]->more == (i + 1 < frames.len())
        }),
{
    let n = members_per_frame(max_frame_size);
    let frames = gossip_frames(members, n);
    chunks_join_to_the_whole(members, n);
    if members.len() <= n {
        let one = gossiped(frames);
        assert(one =~= seq![members]);
        assert(one.skip(1) =~= Seq::<Seq<Member>>::empty());
        assert(joined(one.skip(1)) =~= Seq::<Member>::empty());
        assert(joined(one) =~= members);
    } else {
        assert(gossiped(frames) =~= chunked(members, n));
    }
}

/// A member's encoding stays within its bound.
pub proof fn member_encoding_is_short(member: Member)
    ensures
        WireMember::encoding(member).len() <= 38,
{
    node_encoding_is_short(member.node);
    lemma_varint_len(0, 0, 127);
    lemma_varint_len(1, 0, 127);
}

/// Every frame of a snapshot fits the frame size, however long the snapshot is.
pub proof fn snapshot_frames_fit(members: Seq<Member>, max_frame_size: usize, i: int)
    requires
        max_frame_size >= MIN_FRAME_SIZE,
        members.len() <= u64::MAX,
        0 <= i < gossip_frames(members, members_per_frame(max_frame_size)).len(),
    ensures
        Frame::encoding(gossip_frames(members, members_per_frame(max_frame_size))[i]).len()
            <= max_frame_size,
{
    let n = members_per_frame(max_frame_size);
    let frame = gossip_frames(members, n)[i];
    chunks_join_to_the_whole(members, n);
    let chunk = frame->Gossip_members;
    assert(chunk.len() <= n && chunk.len() <= members.len()) by {
        if members.len() > n {
            assert(chunk == chunked(members, n)[i]);
        }
    }
    assert forall|j: int| 0 <= j < chunk.len() implies WireMember::encoding(
        #[trigger] chunk[j],
    ).len() <= MAX_ENCODED_LEN by {
        member_encoding_is_short(chunk[j]);
    }
    lemma_encodings_bound::<WireMember>(chunk, MAX_ENCODED_LEN as nat);
    lemma_per_frame_fits(
        max_frame_size as nat,
        ENVELOPE_LEN as nat,
        MAX_ENCODED_LEN as nat,
        chunk.len(),
    );
    lemma_cap_values();
    lemma_varint_len(chunk.len(), 9, 1);
    lemma_varint_len(9, 0, 127);
}

} // verus!
