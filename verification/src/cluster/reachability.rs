//! Who can reach whom: every node states which of its direct peers it cannot reach, the statements
//! are relayed, and a member without any path of unbroken links to this node is unreachable.

use vstd::prelude::*;

use crate::cluster::chunks::{chunked, chunks, chunks_join_to_the_whole, entries_per_frame, joined,
    lemma_encodings_bound, lemma_per_frame_fits, per_frame, views};
use crate::cluster::encoding::node_encoding_is_short;
use crate::cluster::frame::{Frame, FrameModel};
use crate::cluster::membership::{Member, MemberState};
use crate::ids::{node_order_is_total, NodeId};
use crate::seqs::{lemma_filter_contains, lemma_filter_start, lemma_filter_step};
use crate::sort::{is_ranked, is_sorted, lemma_sorted_unique, sort, sorts, Ranked};
use crate::table::{as_map, distinct, lemma_entry_in_map, lemma_map_in_entries, lemma_map_len,
    lemma_put, put, Ident, Table};
use crate::wire::{lemma_cap_values, lemma_varint_len, Wire};

verus! {

/// Records parked for a membership which has not caught up yet, bounding what an ill-behaved peer
/// can make this node hold.
pub const MAX_PENDING: usize = 4_096;

/// A directed link from the node which observes to the one it observes.
#[derive(Debug, Clone, Copy, PartialEq, Eq, Structural)]
pub struct Edge {
    pub observer: NodeId,
    pub subject: NodeId,
}

impl Ident for Edge {
    fn same(&self, other: &Self) -> (r: bool) {
        *self == *other
    }
}

/// One observer's latest statement about one direct peer. Versions are owned by the observer;
/// relays only merge and forward them.
#[derive(Debug, Clone, Copy, PartialEq, Eq, Structural)]
pub struct WireReachability {
    pub observer: NodeId,
    pub subject: NodeId,
    pub version: u64,
    pub reachable: bool,
}

impl WireReachability {
    pub open spec fn spec_edge(self) -> Edge {
        Edge { observer: self.observer, subject: self.subject }
    }

    pub fn edge(&self) -> (edge: Edge)
        ensures
            edge == self.spec_edge(),
    {
        Edge { observer: self.observer, subject: self.subject }
    }
}

/// Statements are pushed by observer and then by subject.
impl Ranked for WireReachability {
    open spec fn before(self, other: Self) -> bool {
        self.observer.before(other.observer) || (self.observer == other.observer
            && self.subject.before(other.subject))
    }

    fn is_before(&self, other: &Self) -> (r: bool) {
        self.observer.is_before(&other.observer) || (self.observer == other.observer
            && self.subject.is_before(&other.subject))
    }

    proof fn asymmetric(a: Self, b: Self) {
        if a.observer.before(b.observer) {
            NodeId::asymmetric(a.observer, b.observer);
        } else {
            NodeId::asymmetric(a.subject, b.subject);
            if b.observer.before(a.observer) {
                NodeId::asymmetric(b.observer, a.observer);
            }
        }
    }

    proof fn negatively_transitive(a: Self, b: Self, c: Self) {
        NodeId::negatively_transitive(a.observer, b.observer, c.observer);
        node_order_is_total(a.observer, b.observer);
        node_order_is_total(b.observer, c.observer);
        if a.observer == b.observer && b.observer == c.observer {
            NodeId::negatively_transitive(a.subject, b.subject, c.subject);
        } else if c.observer == a.observer {
            NodeId::asymmetric(a.observer, b.observer);
        }
    }
}

pub open spec fn both_up(up: Seq<NodeId>, record: WireReachability) -> bool {
    up.contains(record.observer) && up.contains(record.subject)
}

/// A statement of the pair, in either direction, says the link is broken.
pub open spec fn is_broken(
    observations: Map<Edge, WireReachability>,
    left: NodeId,
    right: NodeId,
) -> bool {
    let there = Edge { observer: left, subject: right };
    let back = Edge { observer: right, subject: left };
    ||| observations.dom().contains(there) && !observations[there].reachable
    ||| observations.dom().contains(back) && !observations[back].reachable
}

/// A walk over unbroken links which starts at the node and passes Up members only.
pub open spec fn is_walk(
    observations: Map<Edge, WireReachability>,
    up: Seq<NodeId>,
    start: NodeId,
    walk: Seq<NodeId>,
) -> bool {
    &&& walk.len() > 0
    &&& walk[0] == start
    &&& forall|i: int|
        0 < i < walk.len() ==> up.contains(#[trigger] walk[i]) && !is_broken(
            observations,
            walk[i - 1],
            walk[i],
        )
}

/// The node is in the same component of the reachability graph as the start.
pub open spec fn is_connected(
    observations: Map<Edge, WireReachability>,
    up: Seq<NodeId>,
    start: NodeId,
    node: NodeId,
) -> bool {
    exists|walk: Seq<NodeId>| #[trigger]
        is_walk(observations, up, start, walk) && walk.last() == node
}

pub open spec fn up_of(members: Seq<Member>) -> Seq<NodeId> {
    members.filter(|m: Member| m.state == MemberState::Up).map_values(|m: Member| m.node)
}

/// Exactly the statements which satisfy the predicate, each once and in order.
pub open spec fn lists_exactly(
    records: Seq<WireReachability>,
    p: spec_fn(WireReachability) -> bool,
) -> bool {
    &&& is_sorted(records)
    &&& records.no_duplicates()
    &&& forall|record: WireReachability| #[trigger] records.contains(record) == p(record)
}

pub open spec fn listing_of(p: spec_fn(WireReachability) -> bool) -> Seq<WireReachability> {
    choose|records: Seq<WireReachability>| lists_exactly(records, p)
}

/// Where no link has two statements, there is one such list.
proof fn lemma_listing_of(
    records: Seq<WireReachability>,
    p: spec_fn(WireReachability) -> bool,
)
    requires
        lists_exactly(records, p),
        forall|a: WireReachability, b: WireReachability|
            #[trigger] p(a) && #[trigger] p(b) && a.spec_edge() == b.spec_edge() ==> a == b,
    ensures
        records == listing_of(p),
{
    broadcast use vstd::seq_lib::group_to_multiset_ensures;

    let other = listing_of(p);
    assert(lists_exactly(other, p));
    assert(is_ranked(records)) by {
        assert forall|i: int, j: int|
            0 <= i < records.len() && 0 <= j < records.len() implies #[trigger] records[i]
            == #[trigger] records[j] || records[i].before(records[j]) || records[j].before(
            records[i],
        ) by {
            let a = records[i];
            let b = records[j];
            assert(records.contains(a) && records.contains(b));
            assert(p(a) && p(b));
            node_order_is_total(a.observer, b.observer);
            node_order_is_total(a.subject, b.subject);
            if a.observer == b.observer && a.subject == b.subject {
                assert(a.spec_edge() == b.spec_edge());
            }
        }
    }
    records.lemma_multiset_has_no_duplicates();
    other.lemma_multiset_has_no_duplicates();
    assert(records.to_multiset() =~= other.to_multiset()) by {
        assert forall|r: WireReachability|
            records.to_multiset().count(r) == other.to_multiset().count(r) by {
            assert(records.to_multiset().contains(r) == records.contains(r));
            assert(other.to_multiset().contains(r) == other.contains(r));
            assert(records.contains(r) == p(r));
            assert(other.contains(r) == p(r));
        }
    }
    lemma_sorted_unique(records, other);
}

/// A [Reachability] by value.
#[verifier::ext_equal]
pub struct ReachabilityModel {
    pub node: NodeId,
    pub next_version: u64,
    pub observations: Map<Edge, WireReachability>,
    pub pending: Map<Edge, WireReachability>,
    pub forward: Map<Edge, WireReachability>,
    pub unreachable_since: Map<NodeId, u128>,
}

impl ReachabilityModel {
    pub open spec fn fresh(node: NodeId) -> ReachabilityModel {
        ReachabilityModel {
            node,
            next_version: 1,
            observations: Map::empty(),
            pending: Map::empty(),
            forward: Map::empty(),
            unreachable_since: Map::empty(),
        }
    }

    /// No statement about the same link is as new.
    pub open spec fn is_news(self, record: WireReachability) -> bool {
        let edge = record.spec_edge();
        !(self.observations.dom().contains(edge) && self.observations[edge].version
            >= record.version)
    }

    pub open spec fn admitted(self, record: WireReachability) -> ReachabilityModel {
        let edge = record.spec_edge();
        if self.is_news(record) {
            ReachabilityModel {
                observations: self.observations.insert(edge, record),
                forward: self.forward.insert(edge, record),
                ..self
            }
        } else {
            self
        }
    }

    /// A newer statement replaces the one parked for its link; a further link is parked only below
    /// the cap.
    pub open spec fn parked(self, record: WireReachability) -> ReachabilityModel {
        let edge = record.spec_edge();
        let parks = if self.pending.dom().contains(edge) {
            self.pending[edge].version < record.version
        } else {
            self.pending.dom().len() < MAX_PENDING
        };
        if parks {
            ReachabilityModel { pending: self.pending.insert(edge, record), ..self }
        } else {
            self
        }
    }

    /// A link nothing was stated about is reachable.
    pub open spec fn states(self, subject: NodeId) -> bool {
        let edge = Edge { observer: self.node, subject };
        self.observations.dom().contains(edge) ==> self.observations[edge].reachable
    }

    pub open spec fn observed(self, subject: NodeId, reachable: bool) -> ReachabilityModel {
        if self.states(subject) == reachable {
            self
        } else {
            let record = WireReachability {
                observer: self.node,
                subject,
                version: self.next_version,
                reachable,
            };
            ReachabilityModel {
                next_version: if self.next_version == u64::MAX {
                    0
                } else {
                    (self.next_version + 1) as u64
                },
                ..self
            }.admitted(record)
        }
    }

    /// A statement about itself or by this node is not a peer's to make; one which names a node not
    /// Up here is parked.
    pub open spec fn with(self, record: WireReachability, up: Seq<NodeId>) -> ReachabilityModel {
        if record.observer == record.subject || record.observer == self.node {
            self
        } else if both_up(up, record) {
            self.admitted(record)
        } else {
            self.parked(record)
        }
    }

    pub open spec fn merged(
        self,
        records: Seq<WireReachability>,
        up: Seq<NodeId>,
    ) -> ReachabilityModel
        decreases records.len(),
    {
        if records.len() == 0 {
            self
        } else {
            self.merged(records.drop_last(), up).with(records.last(), up)
        }
    }

    pub open spec fn is_ready(self, edge: Edge, up: Seq<NodeId>) -> bool {
        self.pending.dom().contains(edge) && both_up(up, self.pending[edge])
    }

    /// The parked statements whose ends are Up now leave the pending table and those which are news
    /// are recorded and queued.
    pub open spec fn promoted(self, up: Seq<NodeId>) -> ReachabilityModel {
        let taken = |edge: Edge| self.is_ready(edge, up) && self.is_news(self.pending[edge]);
        ReachabilityModel {
            pending: Map::new(
                |e: Edge| self.pending.dom().contains(e) && !self.is_ready(e, up),
                |e: Edge| self.pending[e],
            ),
            observations: Map::new(
                |e: Edge| self.observations.dom().contains(e) || taken(e),
                |e: Edge| if taken(e) { self.pending[e] } else { self.observations[e] },
            ),
            forward: Map::new(
                |e: Edge| self.forward.dom().contains(e) || taken(e),
                |e: Edge| if taken(e) { self.pending[e] } else { self.forward[e] },
            ),
            ..self
        }
    }

    /// The statement is pushed: it was learned since the last push, or it is this node's standing
    /// failure of an Up member.
    pub open spec fn is_outbound(self, record: WireReachability, up: Seq<NodeId>) -> bool {
        let edge = record.spec_edge();
        &&& self.observations.dom().contains(edge)
        &&& self.observations[edge] == record
        &&& {
            ||| self.forward.dom().contains(edge) && both_up(up, record)
            ||| record.observer == self.node && !record.reachable && up.contains(record.subject)
        }
    }

    pub open spec fn is_outbound_now(self, up: Seq<NodeId>) -> spec_fn(WireReachability) -> bool {
        |record: WireReachability| self.is_outbound(record, up)
    }

    /// The statements to push, in order.
    pub open spec fn outbound(self, up: Seq<NodeId>) -> Seq<WireReachability> {
        listing_of(self.is_outbound_now(up))
    }

    pub open spec fn is_between(self, up: Seq<NodeId>) -> spec_fn(WireReachability) -> bool {
        |record: WireReachability|
            self.observations.dom().contains(record.spec_edge())
                && self.observations[record.spec_edge()] == record && both_up(up, record)
    }

    /// The statements between Up members, in order.
    pub open spec fn snapshot(self, up: Seq<NodeId>) -> Seq<WireReachability> {
        listing_of(self.is_between(up))
    }

    pub open spec fn is_covered(edge: Edge, fence: NodeId) -> bool {
        fence.fences(edge.observer) || fence.fences(edge.subject)
    }

    pub open spec fn uncovered(
        records: Map<Edge, WireReachability>,
        fence: NodeId,
    ) -> Map<Edge, WireReachability> {
        Map::new(
            |e: Edge| records.dom().contains(e) && !Self::is_covered(e, fence),
            |e: Edge| records[e],
        )
    }

    pub open spec fn pruned(self, fence: NodeId) -> ReachabilityModel {
        ReachabilityModel {
            observations: Self::uncovered(self.observations, fence),
            pending: Self::uncovered(self.pending, fence),
            forward: Self::uncovered(self.forward, fence),
            unreachable_since: Map::new(
                |n: NodeId| self.unreachable_since.dom().contains(n) && !fence.fences(n),
                |n: NodeId| self.unreachable_since[n],
            ),
            ..self
        }
    }

    pub open spec fn is_outside(self, up: Seq<NodeId>, node: NodeId) -> bool {
        up.contains(node) && !is_connected(self.observations, up, self.node, node)
    }

    /// The Up members outside this node's component, each since it was first found there.
    pub open spec fn marked(self, up: Seq<NodeId>, now: u128) -> ReachabilityModel {
        ReachabilityModel {
            unreachable_since: Map::new(
                |n: NodeId| self.is_outside(up, n),
                |n: NodeId|
                    if self.unreachable_since.dom().contains(n) {
                        self.unreachable_since[n]
                    } else {
                        now
                    },
            ),
            ..self
        }
    }

    /// The Up members among the given ones which are marked, each since it is.
    pub open spec fn unreachable(self, members: Seq<Member>) -> Seq<(Member, u128)> {
        members.filter(self.is_marked()).map_values(
            |m: Member| (m, self.unreachable_since[m.node]),
        )
    }

    pub open spec fn is_marked(self) -> spec_fn(Member) -> bool {
        |m: Member| m.state == MemberState::Up && self.unreachable_since.dom().contains(m.node)
    }

    pub open spec fn wf(self) -> bool {
        &&& self.pending.dom().len() <= MAX_PENDING
        &&& forall|e: Edge| #[trigger]
            self.observations.dom().contains(e) ==> self.observations[e].spec_edge() == e
        &&& forall|e: Edge| #[trigger]
            self.pending.dom().contains(e) ==> self.pending[e].spec_edge() == e
        &&& forall|e: Edge| #[trigger]
            self.forward.dom().contains(e) ==> self.observations.dom().contains(e)
                && self.forward[e] == self.observations[e]
    }
}

/// The statements this node holds and relays.
#[derive(Debug)]
pub struct Reachability {
    pub(crate) node: NodeId,
    pub(crate) next_version: u64,
    pub(crate) observations: Table<Edge, WireReachability>,
    pub(crate) pending: Table<Edge, WireReachability>,
    pub(crate) forward: Table<Edge, WireReachability>,
    pub(crate) unreachable_since: Table<NodeId, u128>,
}

impl View for Reachability {
    type V = ReachabilityModel;

    open(crate) spec fn view(&self) -> ReachabilityModel {
        ReachabilityModel {
            node: self.node,
            next_version: self.next_version,
            observations: self.observations.map(),
            pending: self.pending.map(),
            forward: self.forward.map(),
            unreachable_since: self.unreachable_since.map(),
        }
    }
}

pub fn has_node(nodes: &[NodeId], node: NodeId) -> (r: bool)
    ensures
        r == nodes@.contains(node),
{
    let mut i: usize = 0;
    while i < nodes.len()
        invariant
            i <= nodes@.len(),
            forall|j: int| 0 <= j < i ==> #[trigger] nodes@[j] != node,
        decreases nodes@.len() - i,
    {
        if nodes[i] == node {
            return true;
        }
        i = i + 1;
    }
    false
}

fn is_both_up(up: &[NodeId], record: &WireReachability) -> (r: bool)
    ensures
        r == both_up(up@, *record),
{
    has_node(up, record.observer) && has_node(up, record.subject)
}

pub fn edge_is_down(
    observations: &Table<Edge, WireReachability>,
    left: NodeId,
    right: NodeId,
) -> (r: bool)
    requires
        observations.wf(),
    ensures
        r == is_broken(observations.map(), left, right),
{
    let there = match observations.get(Edge { observer: left, subject: right }) {
        Some(record) => !record.reachable,
        None => false,
    };
    let back = match observations.get(Edge { observer: right, subject: left }) {
        Some(record) => !record.reachable,
        None => false,
    };
    there || back
}

/// A list without repetition of elements of another one is not longer.
proof fn lemma_pigeonhole(s: Seq<NodeId>, of: Seq<NodeId>)
    requires
        s.no_duplicates(),
        forall|i: int| 0 <= i < s.len() ==> of.contains(#[trigger] s[i]),
    ensures
        s.len() <= of.len(),
{
    s.unique_seq_to_set();
    of.lemma_cardinality_of_set();
    vstd::seq_lib::seq_to_set_is_finite(of);
    assert(s.to_set().subset_of(of.to_set())) by {
        assert forall|n: NodeId| s.to_set().contains(n) implies of.to_set().contains(n) by {
            let i = choose|i: int| 0 <= i < s.len() && s[i] == n;
            assert(of.contains(s[i]));
        }
    }
    vstd::set_lib::lemma_len_subset(s.to_set(), of.to_set());
}

impl Reachability {
    pub open(crate) spec fn wf(&self) -> bool {
        &&& self.observations.wf()
        &&& self.pending.wf()
        &&& self.forward.wf()
        &&& self.unreachable_since.wf()
        &&& self@.wf()
    }

    /// How many statements wait for the nodes they name to be Up.
    pub fn parked_len(&self) -> (len: usize)
        requires
            self.wf(),
        ensures
            len == self@.pending.dom().len(),
    {
        proof {
            crate::table::lemma_map_len(self.pending@);
        }
        self.pending.len()
    }

    /// The node whose table this is.
    pub fn node(&self) -> (node: NodeId)
        ensures
            node == self@.node,
    {
        self.node
    }

    pub fn new(node: NodeId) -> (reachability: Self)
        ensures
            reachability.wf(),
            reachability@ == ReachabilityModel::fresh(node),
    {
        let r = Reachability {
            node,
            next_version: 1,
            observations: Table::new(),
            pending: Table::new(),
            forward: Table::new(),
            unreachable_since: Table::new(),
        };
        assert(r@ =~= ReachabilityModel::fresh(node));
        assert(r@.pending.dom() =~= Set::empty());
        r
    }

    /// Records the statement unless a newer one about the same link is known, and queues it for the
    /// next push; the version alone decides, so a relay never reorders an observer.
    fn record_news(&mut self, record: WireReachability) -> (admitted: bool)
        requires
            old(self).wf(),
        ensures
            final(self).wf(),
            admitted == old(self)@.is_news(record),
            final(self)@ == old(self)@.admitted(record),
    {
        let edge = record.edge();
        if let Some(current) = self.observations.get(edge) {
            if current.version >= record.version {
                return false;
            }
        }
        self.observations.insert(edge, record);
        self.forward.insert(edge, record);
        true
    }

    /// Capped, since a peer can name any node: past the cap a new link is dropped rather than
    /// displacing one which only waits for gossip.
    fn park(&mut self, record: WireReachability)
        requires
            old(self).wf(),
        ensures
            final(self).wf(),
            final(self)@ == old(self)@.parked(record),
    {
        let edge = record.edge();
        proof {
            lemma_map_len(self.pending@);
            lemma_put(self.pending@, edge, record);
            lemma_map_len(put(self.pending@, edge, record));
        }
        let parks = match self.pending.get(edge) {
            Some(current) => current.version < record.version,
            None => self.pending.len() < MAX_PENDING,
        };
        if parks {
            self.pending.insert(edge, record);
        }
    }

    /// Whether this node's own link changed, queueing the new statement for the next push.
    pub fn observe(&mut self, subject: NodeId, reachable: bool) -> (changed: bool)
        requires
            old(self).wf(),
        ensures
            final(self).wf(),
            final(self)@ == old(self)@.observed(subject, reachable),
            changed == (old(self)@.states(subject) != reachable && ({
                let edge = Edge { observer: old(self)@.node, subject };
                !(old(self)@.observations.dom().contains(edge)
                    && old(self)@.observations[edge].version >= old(self)@.next_version)
            })),
    {
        let stated = match self.observations.get(Edge { observer: self.node, subject }) {
            Some(record) => record.reachable,
            None => true,
        };
        if stated == reachable {
            return false;
        }
        let version: u64 = self.next_version;
        self.next_version = if version == u64::MAX { 0 } else { version + 1 };
        self.record_news(WireReachability { observer: self.node, subject, version, reachable })
    }

    /// Merges peer statements, parking the ones which name a node not a member here yet.
    pub fn merge(&mut self, records: &[WireReachability], up: &[NodeId])
        requires
            old(self).wf(),
        ensures
            final(self).wf(),
            final(self)@ == old(self)@.merged(records@, up@),
    {
        let mut i: usize = 0;
        assert(records@.take(0) =~= Seq::empty());
        while i < records.len()
            invariant
                i <= records@.len(),
                self.wf(),
                self@ == old(self)@.merged(records@.take(i as int), up@),
            decreases records@.len() - i,
        {
            let record = records[i];
            proof {
                assert(records@.take(i + 1).drop_last() =~= records@.take(i as int));
            }
            if !(record.observer == record.subject || record.observer == self.node) {
                if is_both_up(up, &record) {
                    self.record_news(record);
                } else {
                    self.park(record);
                }
            }
            i = i + 1;
        }
        assert(records@.take(i as int) =~= records@);
    }

    /// Admits the parked statements whose ends have become members, which queues them for the next
    /// push and so resumes the relay.
    pub fn promote_pending(&mut self, up: &[NodeId])
        requires
            old(self).wf(),
        ensures
            final(self).wf(),
            final(self)@ == old(self)@.promoted(up@),
    {
        let ghost before = self@;
        let ghost s = self.pending@;
        let ghost is_waiting = |e: (Edge, WireReachability)| !both_up(up@, e.1);
        let mut ready: Vec<WireReachability> = Vec::new();
        let mut i: usize = 0;
        while i < self.pending.entries.len()
            invariant
                i <= s.len(),
                s == self.pending@,
                self@ == before,
                before.wf(),
                distinct(s),
                before.pending == as_map(s),
                forall|k: int|
                    0 <= k < ready@.len() ==> before.is_ready((#[trigger] ready@[k]).spec_edge(), up@)
                        && before.pending[ready@[k].spec_edge()] == ready@[k],
                forall|k: int|
                    0 <= k < i ==> before.is_ready((#[trigger] s[k]).0, up@) ==> ready@.contains(
                        s[k].1,
                    ),
                forall|k: int, l: int|
                    0 <= k < l < ready@.len() ==> (#[trigger] ready@[k]).spec_edge() != (
                    #[trigger] ready@[l]).spec_edge(),
                forall|k: int|
                    0 <= k < ready@.len() ==> exists|j: int|
                        0 <= j < i && (#[trigger] s[j]).1 == #[trigger] ready@[k],
            decreases s.len() - i,
        {
            let record = self.pending.entries[i].1;
            proof {
                lemma_entry_in_map(s, i as int);
            }
            if is_both_up(up, &record) {
                let ghost earlier = ready@;
                ready.push(record);
                proof {
                    assert(ready@[earlier.len() as int] == record);
                    assert forall|k: int| 0 <= k < earlier.len() implies (
                    #[trigger] ready@[k]).spec_edge() != record.spec_edge() by {
                        assert(ready@[k] == earlier[k]);
                        let j = choose|j: int| 0 <= j < i && (#[trigger] s[j]).1 == earlier[k];
                        lemma_entry_in_map(s, j);
                        assert(s[j].0 != s[i as int].0);
                    }
                    assert forall|k: int| 0 <= k < i + 1 && before.is_ready(
                        (#[trigger] s[k]).0,
                        up@,
                    ) implies ready@.contains(s[k].1) by {
                        if k < i {
                            let l = choose|l: int| 0 <= l < earlier.len() && earlier[l] == s[k].1;
                            assert(ready@[l] == s[k].1);
                        }
                    }
                    assert forall|k: int| 0 <= k < ready@.len() implies exists|j: int|
                        0 <= j < i + 1 && (#[trigger] s[j]).1 == #[trigger] ready@[k] by {
                        if k < earlier.len() {
                            assert(ready@[k] == earlier[k]);
                            let j = choose|j: int| 0 <= j < i && (#[trigger] s[j]).1 == earlier[k];
                            assert(s[j].1 == ready@[k]);
                        } else {
                            assert(s[i as int].1 == ready@[k]);
                        }
                    }
                }
            }
            i = i + 1;
        }
        let keep = |edge: &Edge, record: &WireReachability| -> (r: bool)
            ensures
                r == !both_up(up@, *record),
            { !is_both_up(up, record) };
        self.pending.retain(keep, Ghost(is_waiting));
        proof {
            assert forall|e: Edge| #[trigger] before.is_ready(e, up@) implies exists|k: int|
                0 <= k < ready@.len() && (#[trigger] ready@[k]).spec_edge() == e by {
                let j = lemma_map_in_entries(s, e);
                assert(before.is_ready(s[j].0, up@));
                let k = choose|k: int| 0 <= k < ready@.len() && ready@[k] == s[j].1;
                assert(ready@[k].spec_edge() == e);
            }
            assert(self@.pending =~= before.promoted(up@).pending);
            lemma_map_len(s);
            lemma_map_len(self.pending@);
            assert(self@.pending.dom().subset_of(before.pending.dom()));
            vstd::set_lib::lemma_len_subset(self@.pending.dom(), before.pending.dom());
        }
        let ghost waiting = self@.pending;
        let mut j: usize = 0;
        while j < ready.len()
            invariant
                j <= ready@.len(),
                self.wf(),
                self@.pending == waiting,
                self@.node == before.node,
                self@.next_version == before.next_version,
                self@.unreachable_since == before.unreachable_since,
                forall|k: int|
                    0 <= k < ready@.len() ==> before.is_ready((#[trigger] ready@[k]).spec_edge(), up@)
                        && before.pending[ready@[k].spec_edge()] == ready@[k],
                forall|k: int, l: int|
                    0 <= k < l < ready@.len() ==> (#[trigger] ready@[k]).spec_edge() != (
                    #[trigger] ready@[l]).spec_edge(),
                forall|k: int|
                    0 <= k < j ==> {
                        let e = (#[trigger] ready@[k]).spec_edge();
                        if before.is_news(ready@[k]) {
                            &&& self@.observations.dom().contains(e) && self@.observations[e]
                                == ready@[k]
                            &&& self@.forward.dom().contains(e) && self@.forward[e] == ready@[k]
                        } else {
                            &&& self@.observations.dom().contains(e)
                                == before.observations.dom().contains(e)
                            &&& self@.observations[e] == before.observations[e]
                            &&& self@.forward.dom().contains(e) == before.forward.dom().contains(e)
                            &&& self@.forward[e] == before.forward[e]
                        }
                    },
                forall|e: Edge|
                    (forall|k: int| 0 <= k < j ==> (#[trigger] ready@[k]).spec_edge() != e) ==> {
                        &&& #[trigger] self@.observations.dom().contains(e)
                            == before.observations.dom().contains(e)
                        &&& self@.observations[e] == before.observations[e]
                        &&& self@.forward.dom().contains(e) == before.forward.dom().contains(e)
                        &&& self@.forward[e] == before.forward[e]
                    },
            decreases ready@.len() - j,
        {
            let record = ready[j];
            let ghost e = record.spec_edge();
            proof {
                assert(forall|k: int|
                    0 <= k < j ==> (#[trigger] ready@[k]).spec_edge() != ready@[j as int].spec_edge());
                assert(self@.observations.dom().contains(e) == before.observations.dom().contains(
                    e,
                ));
            }
            self.record_news(record);
            j = j + 1;
        }
        proof {
            let after = before.promoted(up@);
            assert forall|e: Edge| #[trigger]
                self@.observations.dom().contains(e) == after.observations.dom().contains(e) && (
            self@.observations.dom().contains(e) ==> self@.observations[e]
                == after.observations[e]) && self@.forward.dom().contains(e)
                == after.forward.dom().contains(e) && (self@.forward.dom().contains(e)
                ==> self@.forward[e] == after.forward[e]) by {
                if before.is_ready(e, up@) {
                    let k = choose|k: int|
                        0 <= k < ready@.len() && (#[trigger] ready@[k]).spec_edge() == e;
                    assert(ready@[k].spec_edge() == e);
                } else {
                    assert forall|k: int| 0 <= k < j implies (#[trigger] ready@[k]).spec_edge()
                        != e by {
                        assert(before.is_ready(ready@[k].spec_edge(), up@));
                    }
                }
            }
            assert forall|e: Edge| self@.forward.dom().contains(e) == after.forward.dom().contains(
                e,
            ) by {
                assert(self@.observations.dom().contains(e) == after.observations.dom().contains(
                    e,
                ));
            }
            assert forall|e: Edge| self@.forward.dom().contains(e) implies self@.forward[e]
                == after.forward[e] by {
                assert(self@.observations.dom().contains(e) == after.observations.dom().contains(
                    e,
                ));
            }
            assert(self@.observations =~= after.observations);
            assert(self@.forward =~= after.forward);
            assert(self@ =~= after);
        }
    }

    /// Everything to push now, in order: the statements accepted since the last push, which are
    /// drained, and this node's standing failures, which are re-asserted so a peer that never
    /// received one still converges.
    pub fn take_outbound(&mut self, up: &[NodeId]) -> (outbound: Vec<WireReachability>)
        requires
            old(self).wf(),
        ensures
            final(self).wf(),
            final(self)@ == (ReachabilityModel { forward: Map::empty(), ..old(self)@ }),
            outbound@ == old(self)@.outbound(up@),
            lists_exactly(outbound@, old(self)@.is_outbound_now(up@)),
    {
        let ghost model = self@;
        let ghost s = self.observations@;
        let mut records: Vec<WireReachability> = Vec::new();
        let mut i: usize = 0;
        while i < self.observations.entries.len()
            invariant
                i <= s.len(),
                s == self.observations@,
                self.wf(),
                self@ == model,
                model == old(self)@,
                records@.no_duplicates(),
                forall|record: WireReachability| #[trigger]
                    records@.contains(record) ==> model.is_outbound(record, up@) && exists|j: int|
                        0 <= j < i && (#[trigger] s[j]).1 == record,
                forall|j: int|
                    0 <= j < i && model.is_outbound((#[trigger] s[j]).1, up@)
                        ==> records@.contains(s[j].1),
            decreases s.len() - i,
        {
            let (edge, record) = self.observations.entries[i];
            proof {
                lemma_entry_in_map(s, i as int);
            }
            let queued = self.forward.contains_key(edge) && is_both_up(up, &record);
            let standing = record.observer == self.node && !record.reachable && has_node(
                up,
                record.subject,
            );
            let ghost earlier = records@;
            if queued || standing {
                proof {
                    assert(!earlier.contains(record)) by {
                        if earlier.contains(record) {
                            let j = choose|j: int| 0 <= j < i && (#[trigger] s[j]).1 == record;
                            lemma_entry_in_map(s, j);
                            assert(s[j].0 != s[i as int].0);
                        }
                    }
                }
                records.push(record);
            }
            proof {
                assert forall|r: WireReachability| #[trigger]
                    records@.contains(r) implies model.is_outbound(r, up@) && exists|j: int|
                    0 <= j < i + 1 && (#[trigger] s[j]).1 == r by {
                    let k = choose|k: int| 0 <= k < records@.len() && records@[k] == r;
                    if k < earlier.len() {
                        assert(earlier[k] == r);
                        assert(earlier.contains(r));
                        let j = choose|j: int| 0 <= j < i && (#[trigger] s[j]).1 == r;
                        assert(s[j].1 == r);
                    } else {
                        assert(s[i as int].1 == r);
                    }
                }
                assert forall|j: int| 0 <= j < i + 1 && model.is_outbound(
                    (#[trigger] s[j]).1,
                    up@,
                ) implies records@.contains(s[j].1) by {
                    if j < i {
                        let k = choose|k: int| 0 <= k < earlier.len() && earlier[k] == s[j].1;
                        assert(records@[k] == s[j].1);
                    } else {
                        assert(records@[earlier.len() as int] == s[j].1);
                    }
                }
            }
            i = i + 1;
        }
        let outbound = sort(&records);
        self.forward = Table::new();
        proof {
            lemma_sorted_contents(outbound@, records@);
            assert forall|record: WireReachability| #[trigger]
                outbound@.contains(record) == model.is_outbound(record, up@) by {
                if model.is_outbound(record, up@) {
                    let j = lemma_map_in_entries(s, record.spec_edge());
                    assert(s[j].1 == record);
                }
                assert(records@.contains(record) == outbound@.contains(record));
            }
            assert(self@ =~= (ReachabilityModel { forward: Map::empty(), ..model }));
            lemma_listing_of(outbound@, model.is_outbound_now(up@));
        }
        outbound
    }

    /// The statements between Up members, in order, for a connection being set up.
    pub fn snapshot(&self, up: &[NodeId]) -> (records: Vec<WireReachability>)
        requires
            self.wf(),
        ensures
            records@ == self@.snapshot(up@),
            lists_exactly(records@, self@.is_between(up@)),
    {
        let ghost model = self@;
        let ghost s = self.observations@;
        let mut records: Vec<WireReachability> = Vec::new();
        let mut i: usize = 0;
        while i < self.observations.entries.len()
            invariant
                i <= s.len(),
                s == self.observations@,
                self.wf(),
                self@ == model,
                records@.no_duplicates(),
                forall|record: WireReachability| #[trigger]
                    records@.contains(record) ==> both_up(up@, record) && exists|j: int|
                        0 <= j < i && (#[trigger] s[j]).1 == record,
                forall|j: int|
                    0 <= j < i && both_up(up@, (#[trigger] s[j]).1) ==> records@.contains(s[j].1),
            decreases s.len() - i,
        {
            let record = self.observations.entries[i].1;
            proof {
                lemma_entry_in_map(s, i as int);
            }
            let ghost earlier = records@;
            if is_both_up(up, &record) {
                proof {
                    assert(!earlier.contains(record)) by {
                        if earlier.contains(record) {
                            let j = choose|j: int| 0 <= j < i && (#[trigger] s[j]).1 == record;
                            lemma_entry_in_map(s, j);
                            assert(s[j].0 != s[i as int].0);
                        }
                    }
                }
                records.push(record);
            }
            proof {
                assert forall|r: WireReachability| #[trigger] records@.contains(r) implies both_up(
                    up@,
                    r,
                ) && exists|j: int| 0 <= j < i + 1 && (#[trigger] s[j]).1 == r by {
                    let k = choose|k: int| 0 <= k < records@.len() && records@[k] == r;
                    if k < earlier.len() {
                        assert(earlier[k] == r);
                        assert(earlier.contains(r));
                        let j = choose|j: int| 0 <= j < i && (#[trigger] s[j]).1 == r;
                        assert(s[j].1 == r);
                    } else {
                        assert(s[i as int].1 == r);
                    }
                }
                assert forall|j: int| 0 <= j < i + 1 && both_up(up@, (#[trigger] s[j]).1) implies records@.contains(
                    s[j].1,
                ) by {
                    if j < i {
                        let k = choose|k: int| 0 <= k < earlier.len() && earlier[k] == s[j].1;
                        assert(records@[k] == s[j].1);
                    } else {
                        assert(records@[earlier.len() as int] == s[j].1);
                    }
                }
            }
            i = i + 1;
        }
        let sorted = sort(&records);
        proof {
            lemma_sorted_contents(sorted@, records@);
            assert forall|record: WireReachability| #[trigger] sorted@.contains(record) == (
            model.observations.dom().contains(record.spec_edge())
                && model.observations[record.spec_edge()] == record && both_up(up@, record)) by {
                if model.observations.dom().contains(record.spec_edge())
                    && model.observations[record.spec_edge()] == record {
                    let j = lemma_map_in_entries(s, record.spec_edge());
                    assert(s[j].1 == record);
                }
                if records@.contains(record) {
                    let j = choose|j: int| 0 <= j < s.len() && (#[trigger] s[j]).1 == record;
                    lemma_entry_in_map(s, j);
                }
                assert(records@.contains(record) == sorted@.contains(record));
            }
            lemma_listing_of(sorted@, model.is_between(up@));
        }
        sorted
    }

    /// Forgets every statement by or about an incarnation the fence covers.
    pub fn prune_fenced(&mut self, fence: NodeId)
        requires
            old(self).wf(),
        ensures
            final(self).wf(),
            final(self)@ == old(self)@.pruned(fence),
    {
        let ghost before = self@;
        let ghost p = |e: (Edge, WireReachability)| !ReachabilityModel::is_covered(e.0, fence);
        let ghost q = |e: (NodeId, u128)| !fence.fences(e.0);
        let keep = |edge: &Edge, record: &WireReachability| -> (r: bool)
            ensures
                r == !ReachabilityModel::is_covered(*edge, fence),
            { !(fence.covers(edge.observer) || fence.covers(edge.subject)) };
        let ghost pending = self.pending@;
        self.observations.retain(keep, Ghost(p));
        self.pending.retain(keep, Ghost(p));
        self.forward.retain(keep, Ghost(p));
        let keep_mark = |node: &NodeId, since: &u128| -> (r: bool)
            ensures
                r == !fence.fences(*node),
            { !fence.covers(*node) };
        self.unreachable_since.retain(keep_mark, Ghost(q));
        proof {
            lemma_map_len(pending);
            lemma_map_len(self.pending@);
            assert(self@.pending.dom().subset_of(before.pending.dom()));
            vstd::set_lib::lemma_len_subset(self@.pending.dom(), before.pending.dom());
            assert(self@ =~= before.pruned(fence));
        }
    }

    /// The members of this node's component, this node first.
    fn component(&self, up: &[NodeId]) -> (connected: Vec<NodeId>)
        requires
            self.wf(),
        ensures
            forall|node: NodeId| #[trigger]
                connected@.contains(node) == is_connected(
                    self@.observations,
                    up@,
                    self@.node,
                    node,
                ),
    {
        let ghost obs = self@.observations;
        let ghost start = self.node;
        let ghost bound = seq![self.node] + up@;
        let mut connected: Vec<NodeId> = Vec::new();
        connected.push(self.node);
        let mut next: usize = 0;
        proof {
            assert(is_walk(obs, up@, start, seq![start]));
            assert(seq![start].last() == start);
            assert(bound[0] == start);
        }
        while next < connected.len()
            invariant
                self.wf(),
                obs == self@.observations,
                start == self.node,
                bound == seq![start] + up@,
                next <= connected@.len(),
                connected@.len() <= bound.len(),
                connected@.len() > 0,
                connected@[0] == start,
                connected@.no_duplicates(),
                forall|i: int| 0 <= i < connected@.len() ==> bound.contains(#[trigger] connected@[i]),
                forall|i: int|
                    0 <= i < connected@.len() ==> is_connected(
                        obs,
                        up@,
                        start,
                        #[trigger] connected@[i],
                    ),
                forall|i: int, to: NodeId|
                    0 <= i < next && up@.contains(to) && !is_broken(
                        obs,
                        #[trigger] connected@[i],
                        to,
                    ) ==> #[trigger] connected@.contains(to),
            decreases bound.len() - next,
        {
            let from = connected[next];
            let mut i: usize = 0;
            while i < up.len()
                invariant
                    self.wf(),
                    obs == self@.observations,
                    start == self.node,
                    bound == seq![start] + up@,
                    i <= up@.len(),
                    next < connected@.len(),
                    connected@[next as int] == from,
                    connected@.len() <= bound.len(),
                    connected@[0] == start,
                    connected@.no_duplicates(),
                    forall|j: int|
                        0 <= j < connected@.len() ==> bound.contains(#[trigger] connected@[j]),
                    forall|j: int|
                        0 <= j < connected@.len() ==> is_connected(
                            obs,
                            up@,
                            start,
                            #[trigger] connected@[j],
                        ),
                    forall|j: int, to: NodeId|
                        0 <= j < next && up@.contains(to) && !is_broken(
                            obs,
                            #[trigger] connected@[j],
                            to,
                        ) ==> #[trigger] connected@.contains(to),
                    forall|j: int|
                        0 <= j < i && !is_broken(obs, from, #[trigger] up@[j])
                            ==> connected@.contains(up@[j]),
                decreases up@.len() - i,
            {
                let to = up[i];
                let ghost earlier = connected@;
                if !has_node(&connected, to) && !edge_is_down(&self.observations, from, to) {
                    connected.push(to);
                    proof {
                        let walk = choose|walk: Seq<NodeId>| #[trigger]
                            is_walk(obs, up@, start, walk) && walk.last() == from;
                        assert(is_connected(obs, up@, start, from));
                        let longer = walk.push(to);
                        assert forall|k: int| 0 < k < longer.len() implies up@.contains(
                            #[trigger] longer[k],
                        ) && !is_broken(obs, longer[k - 1], longer[k]) by {
                            if k < walk.len() {
                                assert(longer[k] == walk[k]);
                                assert(longer[k - 1] == walk[k - 1]);
                            } else {
                                assert(longer[k - 1] == walk.last());
                                assert(up@[i as int] == to);
                            }
                        }
                        assert(is_walk(obs, up@, start, longer));
                        assert(longer.last() == to);
                        assert(bound[i + 1] == to);
                        assert forall|j: int| 0 <= j < connected@.len() implies bound.contains(
                            #[trigger] connected@[j],
                        ) by {
                            if j < earlier.len() {
                                assert(connected@[j] == earlier[j]);
                            }
                        }
                        lemma_pigeonhole(connected@, bound);
                    }
                }
                proof {
                    assert forall|n: NodeId| earlier.contains(n) implies connected@.contains(n) by {
                        let j = choose|j: int| 0 <= j < earlier.len() && earlier[j] == n;
                        assert(connected@[j] == n);
                    }
                    if !is_broken(obs, from, to) && !earlier.contains(to) {
                        assert(connected@[earlier.len() as int] == to);
                    }
                    assert forall|j: int, n: NodeId|
                        0 <= j < next && up@.contains(n) && !is_broken(
                            obs,
                            #[trigger] connected@[j],
                            n,
                        ) implies #[trigger] connected@.contains(n) by {
                        assert(connected@[j] == earlier[j]);
                        assert(earlier.contains(n));
                    }
                }
                i = i + 1;
            }
            proof {
                assert forall|j: int, n: NodeId|
                    0 <= j < next + 1 && up@.contains(n) && !is_broken(
                        obs,
                        #[trigger] connected@[j],
                        n,
                    ) implies #[trigger] connected@.contains(n) by {
                    if j == next {
                        let k = choose|k: int| 0 <= k < up@.len() && up@[k] == n;
                        assert(connected@.contains(up@[k]));
                    }
                }
            }
            next = next + 1;
        }
        proof {
            assert forall|node: NodeId| #[trigger]
                connected@.contains(node) == is_connected(obs, up@, start, node) by {
                if is_connected(obs, up@, start, node) {
                    let walk = choose|walk: Seq<NodeId>| #[trigger]
                        is_walk(obs, up@, start, walk) && walk.last() == node;
                    lemma_walk_stays(obs, up@, start, walk, connected@, walk.len() - 1);
                }
                if connected@.contains(node) {
                    let i = choose|i: int| 0 <= i < connected@.len() && connected@[i] == node;
                    assert(is_connected(obs, up@, start, connected@[i]));
                }
            }
        }
        connected
    }

    /// The Up members outside this node's component with the instant each was first found there,
    /// in the order of the given members. This is what a downing provider sees as unreachable.
    pub fn unreachable_members(&mut self, members: &[Member], now: u128) -> (outside: Vec<
        (Member, u128),
    >)
        requires
            old(self).wf(),
        ensures
            final(self).wf(),
            final(self)@ == old(self)@.marked(up_of(members@), now),
            outside@ == final(self)@.unreachable(members@),
    {
        let ghost before = self@;
        let up = up_list(members);
        let connected = self.component(&up);
        let ghost outside_p = |e: (NodeId, u128)| before.is_outside(up@, e.0);
        let keep = |node: &NodeId, since: &u128| -> (r: bool)
            ensures
                r == (up@.contains(*node) && !connected@.contains(*node)),
            { has_node(&up, *node) && !has_node(&connected, *node) };
        self.unreachable_since.retain(keep, Ghost(outside_p));
        let ghost kept = self@.unreachable_since;
        let mut i: usize = 0;
        while i < up.len()
            invariant
                i <= up@.len(),
                self.wf(),
                before == old(self)@,
                self@ == (ReachabilityModel {
                    unreachable_since: self@.unreachable_since,
                    ..before
                }),
                forall|node: NodeId| #[trigger]
                    connected@.contains(node) == is_connected(
                        before.observations,
                        up@,
                        before.node,
                        node,
                    ),
                forall|n: NodeId| #[trigger]
                    self@.unreachable_since.dom().contains(n) ==> before.is_outside(up@, n)
                        && self@.unreachable_since[n] == (
                    if before.unreachable_since.dom().contains(n) {
                        before.unreachable_since[n]
                    } else {
                        now
                    }),
                forall|n: NodeId|
                    before.is_outside(up@, n) && #[trigger] before.unreachable_since.dom().contains(
                        n,
                    ) ==> self@.unreachable_since.dom().contains(n),
                forall|j: int|
                    0 <= j < i && before.is_outside(up@, #[trigger] up@[j])
                        ==> self@.unreachable_since.dom().contains(up@[j]),
            decreases up@.len() - i,
        {
            let node = up[i];
            let ghost prior = self@;
            if !has_node(&connected, node) && !self.unreachable_since.contains_key(node) {
                self.unreachable_since.insert(node, now);
                proof {
                    assert(self@.observations == prior.observations);
                    assert(self@.pending == prior.pending);
                    assert(self@.forward == prior.forward);
                    assert(self@.wf());
                }
            }
            i = i + 1;
        }
        proof {
            assert forall|n: NodeId|
                self@.unreachable_since.dom().contains(n) == before.is_outside(up@, n) by {
                if before.is_outside(up@, n) {
                    let j = choose|j: int| 0 <= j < up@.len() && up@[j] == n;
                    assert(before.is_outside(up@, up@[j]));
                }
            }
            assert(self@.unreachable_since =~= before.marked(up@, now).unreachable_since);
            assert(self@ =~= before.marked(up@, now));
        }
        let ghost p = self@.is_marked();
        let ghost f = |m: Member| (m, self@.unreachable_since[m.node]);
        let mut outside: Vec<(Member, u128)> = Vec::new();
        let mut k: usize = 0;
        proof {
            lemma_filter_start(members@, p);
            assert(outside@ =~= members@.take(0).filter(p).map_values(f));
        }
        while k < members.len()
            invariant
                k <= members@.len(),
                self.wf(),
                p == self@.is_marked(),
                f == (|m: Member| (m, self@.unreachable_since[m.node])),
                outside@ == members@.take(k as int).filter(p).map_values(f),
            decreases members@.len() - k,
        {
            let member = members[k];
            proof {
                lemma_filter_step(members@, p, k as int);
            }
            if member.state == MemberState::Up {
                if let Some(since) = self.unreachable_since.get(member.node) {
                    outside.push((member, *since));
                    assert(outside@ =~= members@.take(k + 1).filter(p).map_values(f));
                }
            }
            k = k + 1;
        }
        proof {
            lemma_filter_start(members@, p);
        }
        outside
    }
}

proof fn lemma_walk_stays(
    obs: Map<Edge, WireReachability>,
    up: Seq<NodeId>,
    start: NodeId,
    walk: Seq<NodeId>,
    connected: Seq<NodeId>,
    i: int,
)
    requires
        is_walk(obs, up, start, walk),
        0 <= i < walk.len(),
        connected.len() > 0,
        connected[0] == start,
        forall|j: int, to: NodeId|
            0 <= j < connected.len() && up.contains(to) && !is_broken(
                obs,
                #[trigger] connected[j],
                to,
            ) ==> #[trigger] connected.contains(to),
    ensures
        connected.contains(walk[i]),
    decreases i,
{
    if i == 0 {
        assert(connected[0] == walk[0]);
    } else {
        lemma_walk_stays(obs, up, start, walk, connected, i - 1);
        let j = choose|j: int| 0 <= j < connected.len() && connected[j] == walk[i - 1];
        assert(up.contains(walk[i]) && !is_broken(obs, connected[j], walk[i]));
    }
}

/// Sorting keeps the elements, and keeps a list without repetition one.
proof fn lemma_sorted_contents<T: Ranked>(sorted: Seq<T>, unsorted: Seq<T>)
    requires
        sorts(sorted, unsorted),
    ensures
        forall|t: T| #[trigger] sorted.contains(t) == unsorted.contains(t),
        unsorted.no_duplicates() ==> sorted.no_duplicates(),
{
    broadcast use vstd::seq_lib::group_to_multiset_ensures;

    assert forall|t: T| #[trigger] sorted.contains(t) == unsorted.contains(t) by {
        assert(sorted.contains(t) <==> sorted.to_multiset().count(t) > 0);
        assert(unsorted.contains(t) <==> unsorted.to_multiset().count(t) > 0);
    }
    if unsorted.no_duplicates() {
        unsorted.lemma_multiset_has_no_duplicates();
        sorted.lemma_multiset_has_no_duplicates_conv();
    }
}

fn up_list(members: &[Member]) -> (up: Vec<NodeId>)
    ensures
        up@ == up_of(members@),
{
    let ghost p = |m: Member| m.state == MemberState::Up;
    let ghost f = |m: Member| m.node;
    let mut up: Vec<NodeId> = Vec::new();
    let mut i: usize = 0;
    proof {
        lemma_filter_start(members@, p);
        assert(up@ =~= members@.take(0).filter(p).map_values(f));
    }
    while i < members.len()
        invariant
            i <= members@.len(),
            p == (|m: Member| m.state == MemberState::Up),
            f == (|m: Member| m.node),
            up@ == members@.take(i as int).filter(p).map_values(f),
        decreases members@.len() - i,
    {
        let member = members[i];
        proof {
            lemma_filter_step(members@, p, i as int);
        }
        if member.state == MemberState::Up {
            up.push(member.node);
            assert(up@ =~= members@.take(i + 1).filter(p).map_values(f));
        }
        i = i + 1;
    }
    proof {
        lemma_filter_start(members@, p);
    }
    up
}

/// The longest encoding of a statement.
pub const MAX_ENCODED_LEN: usize = 96;

/// What a frame adds to its statements.
pub const ENVELOPE_LEN: usize = 16;

/// The smallest frame size [snapshot_frames] can respect, one statement plus its envelope.
pub const MIN_FRAME_SIZE: usize = MAX_ENCODED_LEN + ENVELOPE_LEN;

pub open spec fn statements_per_frame(max_frame_size: usize) -> nat {
    per_frame(max_frame_size as int, ENVELOPE_LEN as int, MAX_ENCODED_LEN as int)
}

/// Statements as frames, none where there is nothing to state.
pub open spec fn reachability_frames(records: Seq<WireReachability>, n: nat) -> Seq<FrameModel> {
    chunked(records, n).map_values(
        |observations: Seq<WireReachability>| FrameModel::Reachability { observations },
    )
}

/// The statements in pieces which fit a frame each, split once for a push to many peers.
pub fn snapshot_chunks(records: Vec<WireReachability>, max_frame_size: usize) -> (split: Vec<
    Vec<WireReachability>,
>)
    ensures
        views(split@) == chunked(records@, statements_per_frame(max_frame_size)),
{
    let per_chunk: usize = entries_per_frame(max_frame_size, ENVELOPE_LEN, MAX_ENCODED_LEN);
    chunks(&records, per_chunk)
}

/// Chunks statements into frames which respect the frame size.
pub fn snapshot_frames(records: Vec<WireReachability>, max_frame_size: usize) -> (frames: Vec<
    Frame,
>)
    ensures
        frames.deep_view() == reachability_frames(records@, statements_per_frame(max_frame_size)),
{
    let ghost expected = reachability_frames(records@, statements_per_frame(max_frame_size));
    let ghost all = chunked(records@, statements_per_frame(max_frame_size));
    let mut chunks = snapshot_chunks(records, max_frame_size);
    let mut frames: Vec<Frame> = Vec::new();
    assert(views(chunks@) =~= all.skip(0));
    while chunks.len() > 0
        invariant
            expected.len() == all.len(),
            forall|i: int|
                0 <= i < all.len() ==> #[trigger] expected[i] == (FrameModel::Reachability {
                    observations: all[i],
                }),
            frames@.len() + chunks@.len() == all.len(),
            views(chunks@) == all.skip(frames@.len() as int),
            frames.deep_view() =~= expected.take(frames@.len() as int),
        decreases chunks@.len(),
    {
        let ghost before = frames.deep_view();
        let ghost at = frames@.len() as int;
        let ghost pending = views(chunks@);
        assert(pending[0] == all[at]);
        let chunk = chunks.remove(0);
        assert(chunk.deep_view() =~= all[at]);
        frames.push(Frame::Reachability { observations: chunk });
        proof {
            assert(frames.deep_view() =~= before.push(expected[at]));
            assert(expected.take(at + 1) =~= expected.take(at).push(expected[at]));
            assert(views(chunks@) =~= pending.remove(0));
            assert(pending.remove(0) =~= all.skip(at + 1));
        }
    }
    assert(expected.take(all.len() as int) =~= expected);
    frames
}

/// Every frame of statements fits the frame size, however many there are, and the frames join to
/// the statements.
pub proof fn statement_frames_fit(records: Seq<WireReachability>, max_frame_size: usize, i: int)
    requires
        max_frame_size >= MIN_FRAME_SIZE,
        records.len() <= u64::MAX,
        0 <= i < reachability_frames(records, statements_per_frame(max_frame_size)).len(),
    ensures
        Frame::encoding(
            reachability_frames(records, statements_per_frame(max_frame_size))[i],
        ).len() <= max_frame_size,
        joined(
            reachability_frames(records, statements_per_frame(max_frame_size)).map_values(
                |frame: FrameModel| frame->Reachability_observations,
            ),
        ) == records,
{
    let n = statements_per_frame(max_frame_size);
    chunks_join_to_the_whole(records, n);
    let chunk = chunked(records, n)[i];
    assert(reachability_frames(records, n)[i] == (FrameModel::Reachability {
        observations: chunk,
    }));
    assert(reachability_frames(records, n).map_values(
        |frame: FrameModel| frame->Reachability_observations,
    ) =~= chunked(records, n));
    assert forall|j: int| 0 <= j < chunk.len() implies WireReachability::encoding(
        #[trigger] chunk[j],
    ).len() <= MAX_ENCODED_LEN by {
        node_encoding_is_short(chunk[j].observer);
        node_encoding_is_short(chunk[j].subject);
        lemma_cap_values();
        lemma_varint_len(chunk[j].version as nat, 9, 1);
    }
    lemma_encodings_bound::<WireReachability>(chunk, MAX_ENCODED_LEN as nat);
    lemma_per_frame_fits(
        max_frame_size as nat,
        ENVELOPE_LEN as nat,
        MAX_ENCODED_LEN as nat,
        chunk.len(),
    );
    assert(chunk.len() <= max_frame_size) by (nonlinear_arith)
        requires
            ENVELOPE_LEN + chunk.len() * MAX_ENCODED_LEN <= max_frame_size,
            MAX_ENCODED_LEN > 1,
    ;
    lemma_cap_values();
    lemma_varint_len(chunk.len(), 9, 1);
    lemma_varint_len(11, 0, 127);
}

/// A statement is only ever replaced by a newer one of the same link.
pub proof fn merging_keeps_the_newest(
    table: ReachabilityModel,
    records: Seq<WireReachability>,
    up: Seq<NodeId>,
    edge: Edge,
)
    requires
        table.observations.dom().contains(edge),
    ensures
        table.merged(records, up).observations.dom().contains(edge),
        table.merged(records, up).observations[edge].version >= table.observations[edge].version,
        table.merged(records, up).observations[edge].version == table.observations[edge].version
            ==> table.merged(records, up).observations[edge] == table.observations[edge],
    decreases records.len(),
{
    if records.len() > 0 {
        merging_keeps_the_newest(table, records.drop_last(), up, edge);
    }
}

/// Two statements can be learned in either order, unless one observer said two things under one
/// version.
pub proof fn statements_commute(
    table: ReachabilityModel,
    a: WireReachability,
    b: WireReachability,
)
    requires
        a.spec_edge() == b.spec_edge() && a.version == b.version ==> a == b,
    ensures
        table.admitted(a).admitted(b) == table.admitted(b).admitted(a),
{
    let ab = table.admitted(a).admitted(b);
    let ba = table.admitted(b).admitted(a);
    assert(ab.observations =~= ba.observations);
    assert(ab.forward =~= ba.forward);
}

/// Learning a statement again changes nothing.
pub proof fn statements_are_idempotent(table: ReachabilityModel, record: WireReachability)
    ensures
        table.admitted(record).admitted(record) == table.admitted(record),
        !table.admitted(record).is_news(record),
{
}

/// What this node states is never overruled by what it is told.
pub proof fn own_statements_stand(
    table: ReachabilityModel,
    records: Seq<WireReachability>,
    up: Seq<NodeId>,
    subject: NodeId,
)
    ensures
        table.merged(records, up).states(subject) == table.states(subject),
        table.merged(records, up).node == table.node,
    decreases records.len(),
{
    if records.len() > 0 {
        own_statements_stand(table, records.drop_last(), up, subject);
    }
}

/// Two Up members agree on whether a path of unbroken links is between them.
pub proof fn paths_are_symmetric(
    observations: Map<Edge, WireReachability>,
    up: Seq<NodeId>,
    a: NodeId,
    b: NodeId,
)
    requires
        up.contains(a),
        is_connected(observations, up, a, b),
    ensures
        is_connected(observations, up, b, a),
{
    let walk = choose|walk: Seq<NodeId>| #[trigger]
        is_walk(observations, up, a, walk) && walk.last() == b;
    let back = walk.reverse();
    assert(is_walk(observations, up, b, back)) by {
        assert(back[0] == b);
        assert forall|i: int| 0 < i < back.len() implies up.contains(#[trigger] back[i])
            && !is_broken(observations, back[i - 1], back[i]) by {
            let j = walk.len() - 1 - i;
            assert(back[i] == walk[j]);
            assert(back[i - 1] == walk[j + 1]);
            assert(up.contains(walk[j + 1]));
            if j > 0 {
                assert(up.contains(walk[j]));
            } else {
                assert(walk[j] == a);
            }
        }
    }
    assert(back.last() == a);
}

/// This node reaches itself, and from whatever it reaches every member on a link which neither end
/// states broken. It reaches nothing else: whatever holds of this node and spreads along such links
/// holds of all it reaches.
pub proof fn reach_spreads_along_unbroken_links(
    observations: Map<Edge, WireReachability>,
    up: Seq<NodeId>,
    start: NodeId,
    holds: spec_fn(NodeId) -> bool,
)
    ensures
        is_connected(observations, up, start, start),
        forall|a: NodeId, b: NodeId|
            #![trigger is_connected(observations, up, start, a), up.contains(b)]
            is_connected(observations, up, start, a) && up.contains(b) && (
            observations.dom().contains(Edge { observer: a, subject: b })
                ==> observations[Edge { observer: a, subject: b }].reachable) && (
            observations.dom().contains(Edge { observer: b, subject: a })
                ==> observations[Edge { observer: b, subject: a }].reachable) ==> is_connected(
                observations,
                up,
                start,
                b,
            ),
        holds(start) && (forall|a: NodeId, b: NodeId|
            #![trigger holds(a), up.contains(b)]
            holds(a) && up.contains(b) && (observations.dom().contains(
                Edge { observer: a, subject: b },
            ) ==> observations[Edge { observer: a, subject: b }].reachable) && (
            observations.dom().contains(Edge { observer: b, subject: a })
                ==> observations[Edge { observer: b, subject: a }].reachable) ==> holds(b))
            ==> forall|node: NodeId| #[trigger]
            is_connected(observations, up, start, node) ==> holds(node),
{
    let none = seq![start];
    assert(is_walk(observations, up, start, none) && none.last() == start);
    assert forall|a: NodeId, b: NodeId|
        #![trigger is_connected(observations, up, start, a), up.contains(b)]
        is_connected(observations, up, start, a) && up.contains(b) && !is_broken(observations, a, b)
        implies is_connected(observations, up, start, b) by {
        let walk = choose|walk: Seq<NodeId>| #[trigger]
            is_walk(observations, up, start, walk) && walk.last() == a;
        let further = walk.push(b);
        assert(is_walk(observations, up, start, further)) by {
            assert forall|i: int| 0 < i < further.len() implies up.contains(#[trigger] further[i])
                && !is_broken(observations, further[i - 1], further[i]) by {
                if i < walk.len() {
                    assert(further[i] == walk[i]);
                    assert(up.contains(walk[i]));
                }
            }
        }
        assert(further.last() == b);
    }
    if holds(start) && (forall|a: NodeId, b: NodeId|
        #![trigger holds(a), up.contains(b)]
        holds(a) && up.contains(b) && !is_broken(observations, a, b) ==> holds(b)) {
        assert forall|node: NodeId| #[trigger]
            is_connected(observations, up, start, node) implies holds(node) by {
            let walk = choose|walk: Seq<NodeId>| #[trigger]
                is_walk(observations, up, start, walk) && walk.last() == node;
            lemma_walk_keeps(observations, up, start, walk, walk.len() - 1, holds);
        }
    }
}

proof fn lemma_walk_keeps(
    observations: Map<Edge, WireReachability>,
    up: Seq<NodeId>,
    start: NodeId,
    walk: Seq<NodeId>,
    i: int,
    holds: spec_fn(NodeId) -> bool,
)
    requires
        is_walk(observations, up, start, walk),
        0 <= i < walk.len(),
        holds(start),
        forall|a: NodeId, b: NodeId|
            #![trigger holds(a), up.contains(b)]
            holds(a) && up.contains(b) && !is_broken(observations, a, b) ==> holds(b),
    ensures
        holds(walk[i]),
    decreases i,
{
    if i > 0 {
        lemma_walk_keeps(observations, up, start, walk, i - 1, holds);
        assert(up.contains(walk[i]));
    }
}

/// What a statement heard of does: nothing where this node made it or it is of a node about itself;
/// between members it replaces an older one of its link and is passed on; of others it waits, as far
/// as there is room, for its ends to become members.
pub proof fn a_statement_is_taken(
    table: ReachabilityModel,
    record: WireReachability,
    up: Seq<NodeId>,
)
    ensures
        ({
            let after = table.merged(seq![record], up);
            let edge = Edge { observer: record.observer, subject: record.subject };
            let heard = record.observer != record.subject && record.observer != table.node;
            let members = up.contains(record.observer) && up.contains(record.subject);
            let known = table.observations.dom().contains(edge) && table.observations[edge].version
                >= record.version;
            let parked = if table.pending.dom().contains(edge) {
                table.pending[edge].version < record.version
            } else {
                table.pending.dom().len() < MAX_PENDING
            };
            &&& after.node == table.node && after.next_version == table.next_version
            &&& after.unreachable_since == table.unreachable_since
            &&& after.observations == (if heard && members && !known {
                table.observations.insert(edge, record)
            } else {
                table.observations
            })
            &&& after.forward == (if heard && members && !known {
                table.forward.insert(edge, record)
            } else {
                table.forward
            })
            &&& after.pending == (if heard && !members && parked {
                table.pending.insert(edge, record)
            } else {
                table.pending
            })
        }),
{
    reveal_with_fuel(ReachabilityModel::merged, 2);
    assert(seq![record].drop_last() =~= Seq::<WireReachability>::empty());
    assert(seq![record].last() == record);
}

/// This node states what it observes of a peer once: a peer it has said nothing of is reachable, and
/// a change is stated under the next version and passed on.
pub proof fn a_change_is_stated_once(table: ReachabilityModel, subject: NodeId, reachable: bool)
    requires
        forall|e: Edge| #[trigger]
            table.observations.dom().contains(e) && e.observer == table.node
                ==> table.observations[e].version < table.next_version,
        table.next_version < u64::MAX,
    ensures
        ({
            let after = table.observed(subject, reachable);
            let edge = Edge { observer: table.node, subject };
            let said = if table.observations.dom().contains(edge) {
                table.observations[edge].reachable
            } else {
                true
            };
            let record = WireReachability {
                observer: table.node,
                subject,
                version: table.next_version,
                reachable,
            };
            &&& said == reachable ==> after == table
            &&& said != reachable ==> {
                &&& after.observations == table.observations.insert(edge, record)
                &&& after.forward == table.forward.insert(edge, record)
                &&& after.next_version == table.next_version + 1
                &&& after.node == table.node && after.pending == table.pending
                    && after.unreachable_since == table.unreachable_since
            }
            &&& after.observed(subject, reachable) == after
        }),
{
    let edge = Edge { observer: table.node, subject };
    assert(table.observations.dom().contains(edge) ==> table.observations[edge].version
        < table.next_version);
}

/// A waiting statement leaves once both its ends are members, and then counts like one just heard
/// of: where it is newer than what its link has, it replaces that and is passed on. All others stay.
pub proof fn a_waiting_statement_is_promoted(table: ReachabilityModel, up: Seq<NodeId>, edge: Edge)
    requires
        table.wf(),
    ensures
        ({
            let after = table.promoted(up);
            let waits = table.pending.dom().contains(edge);
            let ready = waits && up.contains(edge.observer) && up.contains(edge.subject);
            let counts = ready && !(table.observations.dom().contains(edge)
                && table.observations[edge].version >= table.pending[edge].version);
            &&& after.pending.dom().contains(edge) == (waits && !ready)
            &&& waits && !ready ==> after.pending[edge] == table.pending[edge]
            &&& after.observations.dom().contains(edge) == (table.observations.dom().contains(edge)
                || counts)
            &&& counts ==> after.observations[edge] == table.pending[edge] && after.forward[edge]
                == table.pending[edge]
            &&& !counts && table.observations.dom().contains(edge) ==> after.observations[edge]
                == table.observations[edge]
            &&& after.forward.dom().contains(edge) == (table.forward.dom().contains(edge) || counts)
            &&& !counts && table.forward.dom().contains(edge) ==> after.forward[edge]
                == table.forward[edge]
            &&& after.node == table.node && after.next_version == table.next_version
                && after.unreachable_since == table.unreachable_since
        }),
{
}

/// A round passes on the statements between members which are new to this node, and its own of
/// members it cannot reach again and again. A newcomer is told every statement between members.
pub proof fn what_is_passed_on(table: ReachabilityModel, record: WireReachability, up: Seq<NodeId>)
    ensures
        ({
            let edge = Edge { observer: record.observer, subject: record.subject };
            let held = table.observations.contains_pair(edge, record);
            let members = up.contains(record.observer) && up.contains(record.subject);
            &&& table.is_outbound(record, up) <==> held && ((members
                && table.forward.dom().contains(edge)) || (record.observer == table.node
                && up.contains(record.subject) && !record.reachable))
            &&& table.is_between(up)(record) <==> held && members
        }),
{
}

/// The death of a node leaves no statement by or about an incarnation it covers, and every other as
/// it is.
pub proof fn a_death_takes_its_statements(
    table: ReachabilityModel,
    fence: NodeId,
    edge: Edge,
    node: NodeId,
)
    ensures
        ({
            let after = table.pruned(fence);
            let covers = |n: NodeId|
                n.addr == fence.addr && n.incarnation.0 <= fence.incarnation.0;
            let gone = covers(edge.observer) || covers(edge.subject);
            &&& after.observations.dom().contains(edge) == (table.observations.dom().contains(edge)
                && !gone)
            &&& after.pending.dom().contains(edge) == (table.pending.dom().contains(edge) && !gone)
            &&& after.forward.dom().contains(edge) == (table.forward.dom().contains(edge) && !gone)
            &&& after.unreachable_since.dom().contains(node)
                == (table.unreachable_since.dom().contains(node) && !covers(node))
            &&& after.observations.dom().contains(edge) ==> after.observations[edge]
                == table.observations[edge]
            &&& after.pending.dom().contains(edge) ==> after.pending[edge] == table.pending[edge]
            &&& after.forward.dom().contains(edge) ==> after.forward[edge] == table.forward[edge]
            &&& after.unreachable_since.dom().contains(node) ==> after.unreachable_since[node]
                == table.unreachable_since[node]
            &&& after.node == table.node && after.next_version == table.next_version
        }),
{
}

/// A member out of reach is marked with the instant this node lost it, which stays until the member
/// is back in reach; the mark of any other node goes.
pub proof fn the_lost_are_marked(table: ReachabilityModel, up: Seq<NodeId>, now: u128, node: NodeId)
    ensures
        ({
            let after = table.marked(up, now);
            let lost = up.contains(node) && !is_connected(
                table.observations,
                up,
                table.node,
                node,
            );
            &&& after.unreachable_since.dom().contains(node) <==> lost
            &&& lost && table.unreachable_since.dom().contains(node)
                ==> after.unreachable_since[node] == table.unreachable_since[node]
            &&& lost && !table.unreachable_since.dom().contains(node)
                ==> after.unreachable_since[node] == now
            &&& after.observations == table.observations && after.pending == table.pending
                && after.forward == table.forward && after.node == table.node
                && after.next_version == table.next_version
        }),
{
}

/// The unreachable members are those listed Up which are marked, each with its mark.
pub proof fn the_marked_are_unreachable(
    table: ReachabilityModel,
    members: Seq<Member>,
    member: Member,
    since: u128,
)
    ensures
        table.unreachable(members).contains((member, since)) <==> members.contains(member)
            && member.state == MemberState::Up && table.unreachable_since.dom().contains(member.node)
            && table.unreachable_since[member.node] == since,
        table.unreachable(members).map_values(|u: (Member, u128)| u.0) == members.filter(
            |m: Member|
                m.state == MemberState::Up && table.unreachable_since.dom().contains(m.node),
        ),
{
    let marked = members.filter(table.is_marked());
    let listed = table.unreachable(members);
    lemma_filter_contains(members, table.is_marked(), member);
    if listed.contains((member, since)) {
        let i = choose|i: int| 0 <= i < listed.len() && listed[i] == (member, since);
        assert(marked[i] == member);
    }
    if marked.contains(member) && table.unreachable_since[member.node] == since {
        let i = choose|i: int| 0 <= i < marked.len() && marked[i] == member;
        assert(listed[i] == (member, since));
    }
    assert(table.is_marked() =~= (|m: Member|
        m.state == MemberState::Up && table.unreachable_since.dom().contains(m.node)));
    assert(listed.map_values(|u: (Member, u128)| u.0) =~= marked);
}

/// What [Reachability::take_outbound] gives: each statement this node holds between members which is
/// new to it, and each of its own of a member it cannot reach, once and in order. What was new is not
/// new anymore.
pub proof fn a_statement_is_passed_on_once(
    table: &mut Reachability,
    up: &[NodeId],
    outbound: Vec<WireReachability>,
    record: WireReachability,
)
    requires
        call_ensures(Reachability::take_outbound, (table, up), outbound),
    ensures
        ({
            let before = old(table)@;
            let edge = Edge { observer: record.observer, subject: record.subject };
            let held = before.observations.dom().contains(edge) && before.observations[edge]
                == record;
            let members = up@.contains(record.observer) && up@.contains(record.subject);
            &&& outbound@.contains(record) <==> held && ((members
                && before.forward.dom().contains(edge)) || (record.observer == before.node
                && up@.contains(record.subject) && !record.reachable))
            &&& outbound@.no_duplicates() && is_sorted(outbound@)
            &&& final(table)@ == (ReachabilityModel { forward: Map::empty(), ..before })
        }),
{
    assert(old(table)@.is_outbound_now(up@)(record) == old(table)@.is_outbound(record, up@));
}

/// What [Reachability::snapshot] gives: every statement held between members, once and in order.
pub proof fn a_newcomer_is_told_everything(
    table: &Reachability,
    up: &[NodeId],
    records: Vec<WireReachability>,
    record: WireReachability,
)
    requires
        call_ensures(Reachability::snapshot, (table, up), records),
    ensures
        ({
            let edge = Edge { observer: record.observer, subject: record.subject };
            &&& records@.contains(record) <==> table@.observations.dom().contains(edge)
                && table@.observations[edge] == record && up@.contains(record.observer)
                && up@.contains(record.subject)
            &&& records@.no_duplicates() && is_sorted(records@)
        }),
{
    assert(table@.is_between(up@)(record) == (table@.observations.dom().contains(record.spec_edge())
        && table@.observations[record.spec_edge()] == record && both_up(up@, record)));
}

/// What [Reachability::unreachable_members] gives: the members Up without a path of unbroken links to
/// this node, in the list's order, each with the instant it was lost.
pub proof fn who_has_no_path_is_unreachable(
    table: &mut Reachability,
    members: &[Member],
    now: u128,
    outside: Vec<(Member, u128)>,
    member: Member,
)
    requires
        call_ensures(Reachability::unreachable_members, (table, members, now), outside),
    ensures
        ({
            let before = old(table)@;
            let up = members@.filter(|m: Member| m.state == MemberState::Up).map_values(
                |m: Member| m.node,
            );
            let since = if before.unreachable_since.dom().contains(member.node) {
                before.unreachable_since[member.node]
            } else {
                now
            };
            let lost = members@.contains(member) && member.state == MemberState::Up
                && !is_connected(before.observations, up, before.node, member.node);
            &&& lost ==> outside@.contains((member, since))
            &&& forall|at: u128| #[trigger]
                outside@.contains((member, at)) ==> lost && at == since
        }),
{
    let before = old(table)@;
    let up = up_of(members@);
    let is_up = |m: Member| m.state == MemberState::Up;
    assert(up =~= members@.filter(is_up).map_values(|m: Member| m.node));
    if members@.contains(member) && member.state == MemberState::Up {
        lemma_filter_contains(members@, is_up, member);
        let kept = members@.filter(is_up);
        let i = choose|i: int| 0 <= i < kept.len() && kept[i] == member;
        assert(up[i] == member.node);
    }
    the_lost_are_marked(before, up, now, member.node);
    assert forall|at: u128| #[trigger]
        before.marked(up, now).unreachable(members@).contains((member, at)) == (members@.contains(
        member,
    ) && member.state == MemberState::Up && before.marked(
        up,
        now,
    ).unreachable_since.dom().contains(member.node) && before.marked(
        up,
        now,
    ).unreachable_since[member.node] == at) by {
        the_marked_are_unreachable(before.marked(up, now), members@, member, at);
    }
}

} // verus!
