//! A cluster-wide directory of registered actors: every node replicates the set of its own
//! registrations to every Up member, and lookups and subscriptions answer from the replicated sets
//! held here.

use std::marker::PhantomData;

use vstd::prelude::*;

use crate::cluster::discovery::{LocalRefError, WireKey, WireKeyModel};
use crate::cluster::membership::MemberState;
use crate::cluster::reachability::has_node;
use crate::cluster::state::{ChangesSnapshot, ClusterState, ClusterStateModel, PublishedChange,
    PublishedChangeModel};
use crate::ids::{node_order_is_total, ActorId, NodeId};
use crate::seqs::{lemma_filter_start, lemma_filter_step};
use crate::sort::{is_ranked, is_sorted, lemma_sorted_unique, sort, Ranked};
use crate::table::{as_map, distinct, has_key, lemma_map_in_entries, lemma_put, put, Table};

verus! {

/// The verdict for one cluster state version: whether every member Up at it, other than this node,
/// has delivered the registrations lookups answer from.
#[derive(Debug, Clone, Copy, PartialEq, Eq, Structural)]
pub struct Settlement {
    pub version: u64,
    pub settled: bool,
}

impl Settlement {
    pub fn new(version: u64, settled: bool) -> (settlement: Self)
        ensures
            settlement == (Settlement { version, settled }),
    {
        Settlement { version, settled }
    }

    /// The cluster state version the verdict is about.
    pub fn version(&self) -> (version: u64)
        ensures
            version == self.version,
    {
        self.version
    }

    /// Whether every member Up at that version, other than this node, has delivered the
    /// registrations lookups answer from.
    pub fn settled(&self) -> (settled: bool)
        ensures
            settled == self.settled,
    {
        self.settled
    }
}

/// The receptionist cannot answer.
#[derive(Debug, Clone, Copy, PartialEq, Eq, Structural)]
pub enum ReceptionistError {
    /// The remoting endpoint has not been started.
    EndpointNotStarted,
    /// The name is registered on an Up member, but only for other message types.
    TypeMismatch,
}

/// One actor registered under a key.
#[derive(Debug, Clone, PartialEq, Eq)]
pub struct WireRegistration {
    pub key: WireKey,
    pub id: ActorId,
}

#[verifier::ext_equal]
pub ghost struct WireRegistrationModel {
    pub key: WireKeyModel,
    pub id: ActorId,
}

impl DeepView for WireRegistration {
    type V = WireRegistrationModel;

    open spec fn deep_view(&self) -> WireRegistrationModel {
        WireRegistrationModel { key: self.key.deep_view(), id: self.id }
    }
}

/// An actor and the node it is registered at.
#[derive(Debug, Clone, Copy, PartialEq, Eq, Structural)]
pub struct Entry {
    pub origin: NodeId,
    pub id: ActorId,
}

impl Ranked for Entry {
    open spec fn before(self, other: Self) -> bool {
        self.origin.before(other.origin) || (self.origin == other.origin && self.id.0 < other.id.0)
    }

    fn is_before(&self, other: &Self) -> (r: bool) {
        self.origin.is_before(&other.origin) || (self.origin == other.origin && self.id.0
            < other.id.0)
    }

    proof fn asymmetric(a: Self, b: Self) {
        if a.origin.before(b.origin) {
            NodeId::asymmetric(a.origin, b.origin);
        } else if b.origin.before(a.origin) {
            NodeId::asymmetric(b.origin, a.origin);
        }
    }

    proof fn negatively_transitive(a: Self, b: Self, c: Self) {
        NodeId::negatively_transitive(a.origin, b.origin, c.origin);
        node_order_is_total(a.origin, b.origin);
        node_order_is_total(b.origin, c.origin);
        if c.origin == a.origin && a.origin != b.origin {
            NodeId::asymmetric(a.origin, b.origin);
        }
    }
}

/// Who is registered under a key, ordered by origin and actor, and which origins hold the name
/// under other types.
#[derive(Debug)]
pub struct Listing {
    pub entries: Vec<Entry>,
    pub other_types: Vec<NodeId>,
}

/// The registrations one origin delivered. They count once the origin is Up here.
#[derive(Debug)]
pub struct Replica {
    pub version: u64,
    pub visible: bool,
    pub entries: Vec<WireRegistration>,
}

#[verifier::ext_equal]
pub ghost struct ReplicaModel {
    pub version: u64,
    pub visible: bool,
    pub entries: Seq<WireRegistrationModel>,
}

impl View for Replica {
    type V = ReplicaModel;

    open spec fn view(&self) -> ReplicaModel {
        ReplicaModel {
            version: self.version,
            visible: self.visible,
            entries: self.entries.deep_view(),
        }
    }
}

/// How often the registration was delivered.
pub open spec fn occurrences(
    entries: Seq<WireRegistrationModel>,
    registration: WireRegistrationModel,
) -> nat {
    entries.to_multiset().count(registration)
}

/// What of the origin's replica is shown: nothing of one not visible yet.
pub open spec fn shown(replicas: Map<NodeId, ReplicaModel>, origin: NodeId) -> Seq<
    WireRegistrationModel,
> {
    if replicas.dom().contains(origin) && replicas[origin].visible {
        replicas[origin].entries
    } else {
        Seq::empty()
    }
}

pub open spec fn is_other_type(key: WireKeyModel, entry: WireRegistrationModel) -> bool {
    entry.key.name == key.name && entry.key.type_tag != key.type_tag
}

pub open spec fn has_other_type(entries: Seq<WireRegistrationModel>, key: WireKeyModel) -> bool {
    exists|i: int| 0 <= i < entries.len() && is_other_type(key, #[trigger] entries[i])
}

/// The listing is the answer for the key: every shown registration under it, and every origin which
/// shows the name under another type, both in order.
pub open spec fn lists(
    listing: Listing,
    replicas: Map<NodeId, ReplicaModel>,
    key: WireKeyModel,
) -> bool {
    &&& is_sorted(listing.entries@)
    &&& is_sorted(listing.other_types@)
    &&& forall|e: Entry| #[trigger]
        listing.entries@.to_multiset().count(e) == occurrences(
            shown(replicas, e.origin),
            WireRegistrationModel { key, id: e.id },
        )
    &&& forall|n: NodeId| #[trigger]
        listing.other_types@.to_multiset().count(n) == (if has_other_type(shown(replicas, n), key) {
            1nat
        } else {
            0nat
        })
}

/// There is one answer.
pub proof fn lemma_listing_unique(
    a: Listing,
    b: Listing,
    replicas: Map<NodeId, ReplicaModel>,
    key: WireKeyModel,
)
    requires
        lists(a, replicas, key),
        lists(b, replicas, key),
    ensures
        a.entries@ == b.entries@,
        a.other_types@ == b.other_types@,
{
    assert(is_ranked(a.entries@)) by {
        assert forall|i: int, j: int|
            0 <= i < a.entries@.len() && 0 <= j < a.entries@.len() implies #[trigger] a.entries@[i]
            == #[trigger] a.entries@[j] || a.entries@[i].before(a.entries@[j])
            || a.entries@[j].before(a.entries@[i]) by {
            node_order_is_total(a.entries@[i].origin, a.entries@[j].origin);
        }
    }
    assert(is_ranked(a.other_types@)) by {
        assert forall|i: int, j: int|
            0 <= i < a.other_types@.len() && 0 <= j < a.other_types@.len() implies
            #[trigger] a.other_types@[i] == #[trigger] a.other_types@[j]
            || a.other_types@[i].before(a.other_types@[j]) || a.other_types@[j].before(
            a.other_types@[i],
        ) by {
            node_order_is_total(a.other_types@[i], a.other_types@[j]);
        }
    }
    assert(a.entries@.to_multiset() =~= b.entries@.to_multiset()) by {
        assert forall|e: Entry| a.entries@.to_multiset().count(e) == b.entries@.to_multiset().count(
            e,
        ) by {}
    }
    assert(a.other_types@.to_multiset() =~= b.other_types@.to_multiset()) by {
        assert forall|n: NodeId|
            a.other_types@.to_multiset().count(n) == b.other_types@.to_multiset().count(n) by {}
    }
    lemma_sorted_unique(a.entries@, b.entries@);
    lemma_sorted_unique(a.other_types@, b.other_types@);
}

/// One key subscribed to: the listing published last, how often it changed and how many read it.
#[derive(Debug)]
pub struct Subscribed {
    pub key: WireKey,
    pub listing: Listing,
    pub revision: u64,
    pub subscribers: usize,
}

impl Subscribed {
    pub open spec fn is_open(self) -> bool {
        self.subscribers > 0
    }
}

pub open spec fn next_revision(revision: u64) -> u64 {
    if revision == u64::MAX {
        0
    } else {
        (revision + 1) as u64
    }
}

/// The listing of a subscription brought up to date; the revision moves if and only if it changed.
pub open spec fn is_refreshed(
    before: Subscribed,
    after: Subscribed,
    replicas: Map<NodeId, ReplicaModel>,
) -> bool {
    &&& after.key.deep_view() == before.key.deep_view()
    &&& after.subscribers == before.subscribers
    &&& lists(after.listing, replicas, after.key.deep_view())
    &&& after.revision == if lists(before.listing, replicas, before.key.deep_view()) {
        before.revision
    } else {
        next_revision(before.revision)
    }
    &&& lists(before.listing, replicas, before.key.deep_view()) ==> after.listing == before.listing
}

/// The subscriptions nobody reads anymore are dropped and the others brought up to date.
pub open spec fn is_republished(
    before: Seq<Subscribed>,
    after: Seq<Subscribed>,
    replicas: Map<NodeId, ReplicaModel>,
) -> bool {
    let open = before.filter(|s: Subscribed| s.is_open());
    &&& after.len() == open.len()
    &&& forall|i: int|
        0 <= i < after.len() ==> is_refreshed(open[i], #[trigger] after[i], replicas)
}

/// Every listing is what a lookup answers.
pub open spec fn is_current(
    subscriptions: Seq<Subscribed>,
    replicas: Map<NodeId, ReplicaModel>,
) -> bool {
    forall|i: int|
        0 <= i < subscriptions.len() ==> lists(
            (#[trigger] subscriptions[i]).listing,
            replicas,
            subscriptions[i].key.deep_view(),
        )
}

pub open spec fn replica_models(entries: Seq<(NodeId, Replica)>) -> Map<NodeId, ReplicaModel> {
    as_map(entries).map_values(|r: Replica| r@)
}

/// The replicated sets, the verdict on them and what was published.
#[derive(Debug)]
pub struct Receptionist {
    pub(crate) node: NodeId,
    pub(crate) replicas: Table<NodeId, Replica>,
    pub(crate) state: ClusterState,
    pub(crate) settlement: Settlement,
    pub(crate) seq: u64,
    pub(crate) subscriptions: Vec<Subscribed>,
    /// The changes published and not sent yet.
    pub(crate) published: Vec<PublishedChange>,
}

/// A [Receptionist] by value, but for its subscriptions.
#[verifier::ext_equal]
pub ghost struct ReceptionistModel {
    pub node: NodeId,
    pub replicas: Map<NodeId, ReplicaModel>,
    pub state: ClusterStateModel,
    pub settlement: Settlement,
    pub seq: u64,
    pub published: Seq<PublishedChangeModel>,
}

impl View for Receptionist {
    type V = ReceptionistModel;

    open(crate) spec fn view(&self) -> ReceptionistModel {
        ReceptionistModel {
            node: self.node,
            replicas: replica_models(self.replicas@),
            state: self.state@,
            settlement: self.settlement,
            seq: self.seq,
            published: self.published@.map_values(|c: PublishedChange| c@),
        }
    }
}

/// Every member Up in the state, but the node itself, has delivered a set which is shown.
pub open spec fn is_settled(
    state: ClusterStateModel,
    node: NodeId,
    replicas: Map<NodeId, ReplicaModel>,
) -> bool {
    forall|i: int|
        0 <= i < state.members.len() && (#[trigger] state.members[i]).state == MemberState::Up
            && state.members[i].node != node ==> replicas.dom().contains(state.members[i].node)
            && replicas[state.members[i].node].visible
}

impl ReceptionistModel {
    pub open spec fn verdict(self) -> Settlement {
        Settlement {
            version: self.state.version,
            settled: is_settled(self.state, self.node, self.replicas),
        }
    }

    /// The verdict brought up to date and published if it flipped.
    pub open spec fn resettled(self) -> ReceptionistModel {
        let verdict = self.verdict();
        if verdict == self.settlement {
            self
        } else {
            let seq = next_revision(self.seq);
            ReceptionistModel {
                settlement: verdict,
                seq,
                published: self.published.push(
                    PublishedChangeModel::Settled { settlement: verdict, seq },
                ),
                ..self
            }
        }
    }

    pub open spec fn fresh(node: NodeId, state: ClusterStateModel) -> ReceptionistModel {
        ReceptionistModel {
            node,
            replicas: Map::empty(),
            state,
            settlement: Settlement {
                version: state.version,
                settled: is_settled(state, node, Map::empty()),
            },
            seq: 0,
            published: Seq::empty(),
        }
    }

    /// The state and then the verdict for it.
    pub open spec fn publishing(self, state: ClusterStateModel) -> ReceptionistModel {
        ReceptionistModel {
            state,
            published: self.published.push(PublishedChangeModel::State(state)),
            ..self
        }.resettled()
    }

    pub open spec fn applied_version(self, origin: NodeId) -> Option<u64> {
        if self.replicas.dom().contains(origin) {
            Some(self.replicas[origin].version)
        } else {
            None
        }
    }

    /// The set is newer than the one held, and the origin of a set which is shown is still Up.
    pub open spec fn applies(self, origin: NodeId, version: u64, visible: bool) -> bool {
        self.replicas.dom().contains(origin) ==> self.replicas[origin].version < version && (
        self.replicas[origin].visible ==> visible)
    }

    pub open spec fn with_replica(self, origin: NodeId, replica: ReplicaModel) -> ReceptionistModel {
        ReceptionistModel { replicas: self.replicas.insert(origin, replica), ..self }.resettled()
    }

    pub open spec fn evicted(self, fence: NodeId) -> ReceptionistModel {
        ReceptionistModel {
            replicas: Map::new(
                |n: NodeId| self.replicas.dom().contains(n) && !fence.fences(n),
                |n: NodeId| self.replicas[n],
            ),
            ..self
        }.resettled()
    }

    pub open spec fn is_hidden(self, origin: NodeId) -> bool {
        self.replicas.dom().contains(origin) && !self.replicas[origin].visible
    }

    pub open spec fn with_origin_up(self, origin: NodeId) -> ReceptionistModel {
        self.with_replica(
            origin,
            ReplicaModel { visible: true, ..self.replicas[origin] },
        )
    }
}

fn next(revision: u64) -> (r: u64)
    ensures
        r == next_revision(revision),
{
    if revision == u64::MAX {
        0
    } else {
        revision + 1
    }
}

proof fn lemma_replica_models_step(entries: Seq<(NodeId, Replica)>, i: int)
    requires
        distinct(entries),
        0 <= i < entries.len(),
    ensures
        replica_models(entries.take(i + 1)) == replica_models(entries.take(i)).insert(
            entries[i].0,
            entries[i].1@,
        ),
        !replica_models(entries.take(i)).dom().contains(entries[i].0),
{
    let before = entries.take(i);
    let after = entries.take(i + 1);
    assert(distinct(before));
    assert(!has_key(before, entries[i].0)) by {
        if has_key(before, entries[i].0) {
            let j = crate::table::key_index(before, entries[i].0);
            assert(before[j].0 == entries[j].0);
        }
    }
    assert(after =~= put(before, entries[i].0, entries[i].1));
    lemma_put(before, entries[i].0, entries[i].1);
    assert(replica_models(after) =~= replica_models(before).insert(entries[i].0, entries[i].1@));
}

proof fn lemma_replica_models_insert(entries: Seq<(NodeId, Replica)>, key: NodeId, replica: Replica)
    requires
        distinct(entries),
    ensures
        replica_models(put(entries, key, replica)) == replica_models(entries).insert(key, replica@),
{
    lemma_put(entries, key, replica);
    assert(replica_models(put(entries, key, replica)) =~= replica_models(entries).insert(
        key,
        replica@,
    ));
}

/// Whether some registration holds the key's name under another type.
fn holds_other_type(entries: &Vec<WireRegistration>, key: &WireKey) -> (r: bool)
    ensures
        r == has_other_type(entries.deep_view(), key.deep_view()),
{
    let mut i: usize = 0;
    while i < entries.len()
        invariant
            i <= entries@.len(),
            forall|j: int|
                0 <= j < i ==> !is_other_type(key.deep_view(), #[trigger] entries.deep_view()[j]),
        decreases entries@.len() - i,
    {
        if entries[i].key.name == key.name && !(entries[i].key.type_tag == key.type_tag) {
            assert(is_other_type(key.deep_view(), entries.deep_view()[i as int]));
            return true;
        }
        i = i + 1;
    }
    false
}

/// Who is registered under the key.
pub fn compute_listing(replicas: &Table<NodeId, Replica>, key: &WireKey) -> (listing: Listing)
    requires
        replicas.wf(),
    ensures
        lists(listing, replica_models(replicas@), key.deep_view()),
{
    broadcast use vstd::seq_lib::group_to_multiset_ensures;

    let ghost k = key.deep_view();
    let mut entries: Vec<Entry> = Vec::new();
    let mut other_types: Vec<NodeId> = Vec::new();
    let mut i: usize = 0;
    let ghost none = replica_models(replicas@.take(0));
    proof {
        assert(replicas@.take(0) =~= Seq::empty());
        assert(none.dom() =~= Set::empty());
        assert forall|e: Entry|
            entries@.to_multiset().count(e) == occurrences(
                shown(none, e.origin),
                WireRegistrationModel { key: k, id: e.id },
            ) by {
            assert(shown(none, e.origin) =~= Seq::<WireRegistrationModel>::empty());
        }
    }
    while i < replicas.entries.len()
        invariant
            replicas.wf(),
            i <= replicas@.len(),
            k == key.deep_view(),
            forall|e: Entry| #[trigger]
                entries@.to_multiset().count(e) == occurrences(
                    shown(replica_models(replicas@.take(i as int)), e.origin),
                    WireRegistrationModel { key: k, id: e.id },
                ),
            forall|n: NodeId| #[trigger]
                other_types@.to_multiset().count(n) == (if has_other_type(
                    shown(replica_models(replicas@.take(i as int)), n),
                    k,
                ) {
                    1nat
                } else {
                    0nat
                }),
        decreases replicas@.len() - i,
    {
        broadcast use vstd::seq_lib::group_to_multiset_ensures;

        let ghost before = replica_models(replicas@.take(i as int));
        let ghost after = replica_models(replicas@.take(i + 1));
        let ghost start = entries@;
        let ghost others = other_types@;
        proof {
            lemma_replica_models_step(replicas@, i as int);
        }
        let origin = replicas.entries[i].0;
        let replica = &replicas.entries[i].1;
        let ghost shows = replica.entries.deep_view();
        if replica.visible {
            let mut j: usize = 0;
            assert(shows.take(0) =~= Seq::<WireRegistrationModel>::empty());
            assert forall|e: Entry|
                entries@.to_multiset().count(e) == start.to_multiset().count(e) + (if e.origin
                    == origin {
                    occurrences(shows.take(0), WireRegistrationModel { key: k, id: e.id })
                } else {
                    0
                }) by {
                assert(occurrences(shows.take(0), WireRegistrationModel { key: k, id: e.id }) == 0);
            }
            while j < replica.entries.len()
                invariant
                    j <= replica.entries@.len(),
                    k == key.deep_view(),
                    shows == replica.entries.deep_view(),
                    forall|e: Entry| #[trigger]
                        entries@.to_multiset().count(e) == start.to_multiset().count(e) + (
                        if e.origin == origin {
                            occurrences(
                                shows.take(j as int),
                                WireRegistrationModel { key: k, id: e.id },
                            )
                        } else {
                            0
                        }),
                decreases replica.entries@.len() - j,
            {
                broadcast use vstd::seq_lib::group_to_multiset_ensures;

                let registration = &replica.entries[j];
                let ghost so_far = entries@;
                assert(shows.take(j + 1) =~= shows.take(j as int).push(shows[j as int]));
                assert(shows[j as int] == registration.deep_view());
                if registration.key.name == key.name && registration.key.type_tag == key.type_tag {
                    entries.push(Entry { origin, id: registration.id });
                    assert(shows[j as int] == (WireRegistrationModel {
                        key: k,
                        id: registration.id,
                    }));
                } else {
                    assert(shows[j as int].key != k);
                }
                proof {
                    assert forall|e: Entry| #[trigger]
                        entries@.to_multiset().count(e) == start.to_multiset().count(e) + (
                        if e.origin == origin {
                            occurrences(
                                shows.take(j + 1),
                                WireRegistrationModel { key: k, id: e.id },
                            )
                        } else {
                            0
                        }) by {
                        assert(so_far.to_multiset().count(e) == start.to_multiset().count(e) + (
                        if e.origin == origin {
                            occurrences(
                                shows.take(j as int),
                                WireRegistrationModel { key: k, id: e.id },
                            )
                        } else {
                            0
                        }));
                    }
                }
                j = j + 1;
            }
            assert(shows.take(j as int) =~= shows);
            if holds_other_type(&replica.entries, key) {
                other_types.push(origin);
            }
        }
        proof {
            assert forall|e: Entry| #[trigger]
                entries@.to_multiset().count(e) == occurrences(
                    shown(after, e.origin),
                    WireRegistrationModel { key: k, id: e.id },
                ) by {
                assert(start.to_multiset().count(e) == occurrences(
                    shown(before, e.origin),
                    WireRegistrationModel { key: k, id: e.id },
                ));
                if e.origin == origin {
                    assert(shown(before, origin) =~= Seq::<WireRegistrationModel>::empty());
                }
            }
            assert forall|n: NodeId| #[trigger]
                other_types@.to_multiset().count(n) == (if has_other_type(shown(after, n), k) {
                    1nat
                } else {
                    0nat
                }) by {
                assert(others.to_multiset().count(n) == (if has_other_type(shown(before, n), k) {
                    1nat
                } else {
                    0nat
                }));
                if n == origin {
                    assert(shown(before, origin) =~= Seq::<WireRegistrationModel>::empty());
                }
            }
        }
        i = i + 1;
    }
    assert(replicas@.take(i as int) =~= replicas@);
    Listing { entries: sort(&entries), other_types: sort(&other_types) }
}

/// Whether two listings answer the same.
fn same_listing(a: &Listing, b: &Listing) -> (r: bool)
    ensures
        r == (a.entries@ == b.entries@ && a.other_types@ == b.other_types@),
{
    if a.entries.len() != b.entries.len() || a.other_types.len() != b.other_types.len() {
        return false;
    }
    let mut i: usize = 0;
    while i < a.entries.len()
        invariant
            i <= a.entries@.len(),
            a.entries@.len() == b.entries@.len(),
            forall|j: int| 0 <= j < i ==> #[trigger] a.entries@[j] == b.entries@[j],
        decreases a.entries@.len() - i,
    {
        if a.entries[i] != b.entries[i] {
            return false;
        }
        i = i + 1;
    }
    assert(a.entries@ =~= b.entries@);
    i = 0;
    while i < a.other_types.len()
        invariant
            i <= a.other_types@.len(),
            a.other_types@.len() == b.other_types@.len(),
            forall|j: int| 0 <= j < i ==> #[trigger] a.other_types@[j] == b.other_types@[j],
        decreases a.other_types@.len() - i,
    {
        if a.other_types[i] != b.other_types[i] {
            return false;
        }
        i = i + 1;
    }
    assert(a.other_types@ =~= b.other_types@);
    true
}

/// The registrations under the name are not the same.
pub open spec fn differs(
    a: Seq<WireRegistrationModel>,
    b: Seq<WireRegistrationModel>,
    name: Seq<char>,
) -> bool {
    exists|r: WireRegistrationModel|
        r.key.name == name && #[trigger] occurrences(a, r) != occurrences(b, r)
}

pub open spec fn names_contain(names: Seq<String>, name: Seq<char>) -> bool {
    exists|i: int| 0 <= i < names.len() && (#[trigger] names[i])@ == name
}

fn has_name(names: &Vec<String>, name: &String) -> (r: bool)
    ensures
        r == names_contain(names@, name@),
{
    let mut i: usize = 0;
    while i < names.len()
        invariant
            i <= names@.len(),
            forall|j: int| 0 <= j < i ==> (#[trigger] names@[j])@ != name@,
        decreases names@.len() - i,
    {
        if names[i] == *name {
            return true;
        }
        i = i + 1;
    }
    false
}

fn count_registration(entries: &Vec<WireRegistration>, registration: &WireRegistration) -> (n: usize)
    ensures
        n == occurrences(entries.deep_view(), registration.deep_view()),
{
    broadcast use vstd::seq_lib::group_to_multiset_ensures;

    let ghost all = entries.deep_view();
    let mut n: usize = 0;
    let mut i: usize = 0;
    assert(all.take(0) =~= Seq::<WireRegistrationModel>::empty());
    while i < entries.len()
        invariant
            i <= entries@.len(),
            n <= i,
            all == entries.deep_view(),
            n == occurrences(all.take(i as int), registration.deep_view()),
        decreases entries@.len() - i,
    {
        broadcast use vstd::seq_lib::group_to_multiset_ensures;

        let entry = &entries[i];
        assert(all.take(i + 1) =~= all.take(i as int).push(all[i as int]));
        assert(all[i as int] == entry.deep_view());
        if entry.id == registration.id && entry.key.name == registration.key.name
            && entry.key.type_tag == registration.key.type_tag {
            assert(entry.deep_view() == registration.deep_view());
            n = n + 1;
        } else {
            assert(entry.deep_view() != registration.deep_view());
        }
        i = i + 1;
    }
    assert(all.take(i as int) =~= all);
    n
}

proof fn lemma_occurs(entries: Seq<WireRegistrationModel>, r: WireRegistrationModel)
    ensures
        (occurrences(entries, r) > 0) == entries.contains(r),
{
    broadcast use vstd::seq_lib::group_to_multiset_ensures;

    assert(entries.to_multiset().contains(r) == entries.contains(r));
}

/// Adds the names of `from` whose registration occurs differently often in `other`.
fn add_changed_names(
    names: &mut Vec<String>,
    from: &Vec<WireRegistration>,
    other: &Vec<WireRegistration>,
)
    ensures
        forall|name: Seq<char>| #[trigger]
            names_contain(old(names)@, name) ==> names_contain(final(names)@, name),
        forall|r: WireRegistrationModel|
            from.deep_view().contains(r) && #[trigger] occurrences(from.deep_view(), r)
                != occurrences(other.deep_view(), r) ==> names_contain(final(names)@, r.key.name),
{
    let ghost start = names@;
    let ghost all = from.deep_view();
    let mut i: usize = 0;
    while i < from.len()
        invariant
            i <= from@.len(),
            all == from.deep_view(),
            start.len() <= names@.len(),
            forall|j: int| 0 <= j < start.len() ==> #[trigger] names@[j] == start[j],
            forall|j: int|
                0 <= j < i && #[trigger] occurrences(all, all[j]) != occurrences(
                    other.deep_view(),
                    all[j],
                ) ==> names_contain(names@, all[j].key.name),
        decreases from@.len() - i,
    {
        let ghost before = names@;
        assert(all[i as int] == from@[i as int].deep_view());
        if count_registration(from, &from[i]) != count_registration(other, &from[i]) {
            names.push(from[i].key.name.clone());
            proof {
                assert(names@[before.len() as int]@ == all[i as int].key.name);
            }
        }
        proof {
            assert forall|j: int|
                0 <= j < i + 1 && #[trigger] occurrences(all, all[j]) != occurrences(
                    other.deep_view(),
                    all[j],
                ) implies names_contain(names@, all[j].key.name) by {
                if j < i {
                    assert(names_contain(before, all[j].key.name));
                    let m = choose|m: int|
                        0 <= m < before.len() && (#[trigger] before[m])@ == all[j].key.name;
                    assert(names@[m] == before[m]);
                }
            }
        }
        i = i + 1;
    }
    proof {
        assert forall|name: Seq<char>| #[trigger] names_contain(start, name) implies names_contain(
            names@,
            name,
        ) by {
            let m = choose|m: int| 0 <= m < start.len() && (#[trigger] start[m])@ == name;
            assert(names@[m] == start[m]);
        }
        assert forall|r: WireRegistrationModel|
            all.contains(r) && #[trigger] occurrences(all, r) != occurrences(
                other.deep_view(),
                r,
            ) implies names_contain(names@, r.key.name) by {
            let j = choose|j: int| 0 <= j < all.len() && all[j] == r;
            assert(occurrences(all, all[j]) != occurrences(other.deep_view(), all[j]));
        }
    }
}

/// The names whose registrations changed.
fn changed_names(a: &Vec<WireRegistration>, b: &Vec<WireRegistration>) -> (names: Vec<String>)
    ensures
        forall|name: Seq<char>| #[trigger]
            differs(a.deep_view(), b.deep_view(), name) ==> names_contain(names@, name),
{
    let mut names: Vec<String> = Vec::new();
    add_changed_names(&mut names, a, b);
    let ghost first = names@;
    add_changed_names(&mut names, b, a);
    proof {
        let x = a.deep_view();
        let y = b.deep_view();
        assert forall|name: Seq<char>| #[trigger] differs(x, y, name) implies names_contain(
            names@,
            name,
        ) by {
            let r = choose|r: WireRegistrationModel|
                r.key.name == name && #[trigger] occurrences(x, r) != occurrences(y, r);
            lemma_occurs(x, r);
            lemma_occurs(y, r);
            if x.contains(r) {
                assert(names_contain(first, name));
            } else {
                assert(y.contains(r));
                assert(occurrences(y, r) != occurrences(x, r));
            }
        }
    }
    names
}

/// A listing stands where nothing shown under its name changed.
proof fn lemma_listing_stands(
    listing: Listing,
    a: Map<NodeId, ReplicaModel>,
    b: Map<NodeId, ReplicaModel>,
    key: WireKeyModel,
)
    requires
        lists(listing, a, key),
        forall|o: NodeId| !differs(#[trigger] shown(a, o), shown(b, o), key.name),
    ensures
        lists(listing, b, key),
{
    assert forall|e: Entry| #[trigger]
        listing.entries@.to_multiset().count(e) == occurrences(
            shown(b, e.origin),
            WireRegistrationModel { key, id: e.id },
        ) by {
        let r = WireRegistrationModel { key, id: e.id };
        assert(!differs(shown(a, e.origin), shown(b, e.origin), key.name));
        assert(occurrences(shown(a, e.origin), r) == occurrences(shown(b, e.origin), r));
    }
    assert forall|n: NodeId| #[trigger]
        listing.other_types@.to_multiset().count(n) == (if has_other_type(shown(b, n), key) {
            1nat
        } else {
            0nat
        }) by {
        assert(!differs(shown(a, n), shown(b, n), key.name));
        lemma_other_type_stands(shown(a, n), shown(b, n), key);
        lemma_other_type_stands(shown(b, n), shown(a, n), key);
    }
}

proof fn lemma_other_type_stands(
    a: Seq<WireRegistrationModel>,
    b: Seq<WireRegistrationModel>,
    key: WireKeyModel,
)
    requires
        !differs(a, b, key.name) || !differs(b, a, key.name),
    ensures
        has_other_type(a, key) ==> has_other_type(b, key),
{
    if has_other_type(a, key) {
        let i = choose|i: int| 0 <= i < a.len() && is_other_type(key, #[trigger] a[i]);
        let r = a[i];
        lemma_occurs(a, r);
        lemma_occurs(b, r);
        assert(a.contains(r));
        assert(occurrences(a, r) == occurrences(b, r)) by {
            if !differs(b, a, key.name) {
                assert(occurrences(b, r) == occurrences(a, r));
            }
        }
        let j = choose|j: int| 0 <= j < b.len() && b[j] == r;
        assert(is_other_type(key, b[j]));
    }
}

impl Receptionist {
    pub open(crate) spec fn wf(&self) -> bool {
        &&& self.replicas.wf()
        &&& is_current(self.subscriptions@, self@.replicas)
    }

    /// The keys subscribed to.
    pub open(crate) spec fn subscribed(&self) -> Seq<Subscribed> {
        self.subscriptions@
    }

    /// A receptionist without any registrations, in the given state.
    pub fn new(node: NodeId, state: ClusterState) -> (receptionist: Self)
        ensures
            receptionist.wf(),
            receptionist@ == ReceptionistModel::fresh(node, state@),
            receptionist.subscribed().len() == 0,
    {
        let replicas: Table<NodeId, Replica> = Table::new();
        assert(replica_models(replicas@) =~= Map::empty());
        let settled = compute_settled(&state, node, &replicas);
        let settlement = Settlement::new(state.version, settled);
        let receptionist = Receptionist {
            node,
            replicas,
            state,
            settlement,
            seq: 0,
            subscriptions: Vec::new(),
            published: Vec::new(),
        };
        assert(receptionist@ =~= ReceptionistModel::fresh(node, state@));
        receptionist
    }

    /// Brings the verdict up to date, publishing it if it flipped.
    fn resettle(&mut self)
        requires
            old(self).replicas.wf(),
        ensures
            final(self)@ == old(self)@.resettled(),
            final(self).replicas@ == old(self).replicas@,
            final(self).subscribed() == old(self).subscribed(),
    {
        let settled = compute_settled(&self.state, self.node, &self.replicas);
        let settlement = Settlement::new(self.state.version, settled);
        if settlement == self.settlement {
            return ;
        }
        let ghost before = self@.published;
        self.settlement = settlement;
        self.seq = next(self.seq);
        self.published.push(PublishedChange::Settled { settlement, seq: self.seq });
        assert(self@.published =~= before.push(
            PublishedChangeModel::Settled { settlement, seq: self.seq },
        ));
    }

    /// Drops the subscriptions nobody reads anymore and brings those of the given names up to date.
    fn republish(&mut self, names: &Vec<String>, Ghost(before): Ghost<Map<NodeId, ReplicaModel>>)
        requires
            old(self).replicas.wf(),
            is_current(old(self).subscribed(), before),
            forall|o: NodeId, name: Seq<char>| #[trigger]
                differs(shown(before, o), shown(old(self)@.replicas, o), name) ==> names_contain(
                    names@,
                    name,
                ),
        ensures
            final(self).wf(),
            final(self)@ == old(self)@,
            final(self).replicas@ == old(self).replicas@,
            is_republished(
                old(self).subscribed(),
                final(self).subscribed(),
                old(self)@.replicas,
            ),
    {
        let ghost now = self@.replicas;
        let ghost all = self.subscriptions@;
        let ghost p = |s: Subscribed| s.is_open();
        let mut rest: Vec<Subscribed> = Vec::new();
        std::mem::swap(&mut self.subscriptions, &mut rest);
        let mut kept: Vec<Subscribed> = Vec::new();
        let ghost mut seen: int = 0;
        proof {
            lemma_filter_start(all, p);
            assert(all.skip(0) =~= all);
        }
        while rest.len() > 0
            invariant
                self.replicas.wf(),
                self.replicas@ == old(self).replicas@,
                self@ == old(self)@,
                now == self@.replicas,
                is_current(all, before),
                forall|o: NodeId, name: Seq<char>| #[trigger]
                    differs(shown(before, o), shown(now, o), name) ==> names_contain(names@, name),
                p == (|s: Subscribed| s.is_open()),
                0 <= seen <= all.len(),
                rest@ == all.skip(seen),
                kept@.len() == all.take(seen).filter(p).len(),
                forall|i: int|
                    0 <= i < kept@.len() ==> is_refreshed(
                        all.take(seen).filter(p)[i],
                        #[trigger] kept@[i],
                        now,
                    ),
            decreases rest@.len(),
        {
            let ghost before_kept = kept@;
            let ghost done = all.take(seen).filter(p);
            proof {
                assert(rest@[0] == all[seen]);
                lemma_filter_step(all, p, seen);
            }
            let mut subscribed = rest.remove(0);
            let ghost original = subscribed;
            proof {
                assert(rest@ =~= all.skip(seen + 1));
                assert(lists(all[seen].listing, before, all[seen].key.deep_view()));
            }
            if subscribed.subscribers > 0 {
                if has_name(names, &subscribed.key.name) {
                    let listing = compute_listing(&self.replicas, &subscribed.key);
                    if !same_listing(&listing, &subscribed.listing) {
                        proof {
                            if lists(subscribed.listing, now, subscribed.key.deep_view()) {
                                lemma_listing_unique(
                                    listing,
                                    subscribed.listing,
                                    now,
                                    subscribed.key.deep_view(),
                                );
                            }
                        }
                        subscribed.listing = listing;
                        subscribed.revision = next(subscribed.revision);
                    }
                } else {
                    proof {
                        let key = subscribed.key.deep_view();
                        assert forall|o: NodeId| !differs(
                            #[trigger] shown(before, o),
                            shown(now, o),
                            key.name,
                        ) by {}
                        lemma_listing_stands(subscribed.listing, before, now, key);
                    }
                }
                assert(is_refreshed(original, subscribed, now));
                kept.push(subscribed);
            }
            proof {
                assert forall|i: int| 0 <= i < kept@.len() implies is_refreshed(
                    all.take(seen + 1).filter(p)[i],
                    #[trigger] kept@[i],
                    now,
                ) by {
                    if i < before_kept.len() {
                        assert(kept@[i] == before_kept[i]);
                        assert(all.take(seen + 1).filter(p)[i] == done[i]);
                    }
                }
                seen = seen + 1;
            }
        }
        proof {
            lemma_filter_start(all, p);
        }
        self.subscriptions = kept;
    }

    /// The current verdict.
    pub fn settlement(&mut self) -> (settlement: Settlement)
        requires
            old(self).wf(),
        ensures
            final(self).wf(),
            final(self)@ == old(self)@.resettled(),
            final(self).subscribed() == old(self).subscribed(),
            settlement == old(self)@.verdict(),
    {
        self.resettle();
        self.settlement
    }

    /// The coordinated snapshot a subscriber starts from: the current state, the verdict for it and
    /// that verdict's sequence.
    pub fn snapshot(&mut self) -> (snapshot: ChangesSnapshot)
        requires
            old(self).wf(),
        ensures
            final(self).wf(),
            final(self)@ == old(self)@.resettled(),
            final(self).subscribed() == old(self).subscribed(),
            snapshot.state@ == old(self)@.state,
            snapshot.settlement == old(self)@.verdict(),
            snapshot.seq == old(self)@.resettled().seq,
    {
        self.resettle();
        ChangesSnapshot {
            state: self.state.copy(),
            settlement: self.settlement,
            seq: self.seq,
        }
    }

    /// The cluster state published last.
    pub fn state(&self) -> (state: &ClusterState)
        ensures
            state@ == self@.state,
    {
        &self.state
    }

    /// How many keys are subscribed to.
    pub fn subscribed_keys(&self) -> (count: usize)
        ensures
            count == self.subscribed().len(),
    {
        self.subscriptions.len()
    }

    /// Hands out the changes published since the last call, in order, to be sent.
    pub fn take_published(&mut self) -> (published: Vec<PublishedChange>)
        requires
            old(self).wf(),
        ensures
            final(self).wf(),
            published@.map_values(|c: PublishedChange| c@) == old(self)@.published,
            final(self)@ == (ReceptionistModel { published: Seq::empty(), ..old(self)@ }),
            final(self).subscribed() == old(self).subscribed(),
    {
        let mut published: Vec<PublishedChange> = Vec::new();
        std::mem::swap(&mut self.published, &mut published);
        assert(self@.published =~= Seq::empty());
        published
    }

    /// Publishes a state and the verdict for it, in this order.
    pub fn publish(&mut self, state: ClusterState)
        requires
            old(self).wf(),
        ensures
            final(self).wf(),
            final(self)@ == old(self)@.publishing(state@),
            final(self).subscribed() == old(self).subscribed(),
    {
        let ghost before = self@.published;
        self.state = state.copy();
        self.published.push(PublishedChange::State(state));
        assert(self@.published =~= before.push(PublishedChangeModel::State(state@)));
        self.resettle();
    }

    /// Whether the state is of the given version and every member Up in it has delivered its set.
    pub fn settled(&self, version: u64) -> (r: bool)
        requires
            self.wf(),
        ensures
            r == (self@.verdict() == (Settlement { version, settled: true })),
    {
        self.state.version == version && compute_settled(&self.state, self.node, &self.replicas)
    }

    /// The version of the set held for the origin.
    pub fn applied_version(&self, origin: NodeId) -> (version: Option<u64>)
        requires
            self.wf(),
        ensures
            version == self@.applied_version(origin),
    {
        match self.replicas.get(origin) {
            Some(replica) => Some(replica.version),
            None => None,
        }
    }

    /// Whether a set is held for every one of the origins.
    pub fn has_replicas(&self, origins: &[NodeId]) -> (r: bool)
        requires
            self.wf(),
        ensures
            r == (forall|i: int|
                0 <= i < origins@.len() ==> self@.replicas.dom().contains(#[trigger] origins@[i])),
    {
        let mut i: usize = 0;
        while i < origins.len()
            invariant
                self.wf(),
                i <= origins@.len(),
                forall|j: int|
                    0 <= j < i ==> self@.replicas.dom().contains(#[trigger] origins@[j]),
            decreases origins@.len() - i,
        {
            if !self.replicas.contains_key(origins[i]) {
                assert(!self@.replicas.dom().contains(origins@[i as int]));
                return false;
            }
            i = i + 1;
        }
        true
    }

    /// Replaces an origin's set by a newer one, published only if the origin is Up. A visible
    /// origin found Down keeps its published set, which the eviction takes back.
    pub fn apply(
        &mut self,
        origin: NodeId,
        version: u64,
        entries: Vec<WireRegistration>,
        visible: bool,
    ) -> (applied: bool)
        requires
            old(self).wf(),
        ensures
            final(self).wf(),
            applied == old(self)@.applies(origin, version, visible),
            !applied ==> final(self)@ == old(self)@ && final(self).subscribed() == old(self).subscribed(),
            applied ==> final(self)@ == old(self)@.with_replica(
                origin,
                ReplicaModel { version, visible, entries: entries.deep_view() },
            ),
            applied && !visible ==> final(self).subscribed() == old(self).subscribed(),
            applied && visible ==> is_republished(
                old(self).subscribed(),
                final(self).subscribed(),
                final(self)@.replicas,
            ),
    {
        let ghost before = self@.replicas;
        let ghost table = self.replicas@;
        let nothing: Vec<WireRegistration> = Vec::new();
        assert(nothing.deep_view() =~= Seq::empty());
        let names = match self.replicas.get(origin) {
            Some(replica) => {
                if replica.version >= version || (replica.visible && !visible) {
                    return false;
                }
                if replica.visible {
                    changed_names(&replica.entries, &entries)
                } else {
                    changed_names(&nothing, &entries)
                }
            },
            None => changed_names(&nothing, &entries),
        };
        let replica = Replica { version, visible, entries };
        proof {
            lemma_replica_models_insert(table, origin, replica);
        }
        self.replicas.insert(origin, replica);
        let ghost inserted = before.insert(origin, replica@);
        proof {
            assert(self@.replicas == inserted);
            assert(shown(before, origin) =~= if before.dom().contains(origin)
                && before[origin].visible {
                before[origin].entries
            } else {
                Seq::empty()
            });
        }
        if !visible {
            proof {
                assert forall|i: int| 0 <= i < self.subscriptions@.len() implies lists(
                    (#[trigger] self.subscriptions@[i]).listing,
                    inserted,
                    self.subscriptions@[i].key.deep_view(),
                ) by {
                    let key = self.subscriptions@[i].key.deep_view();
                    assert forall|o: NodeId| !differs(
                        #[trigger] shown(before, o),
                        shown(inserted, o),
                        key.name,
                    ) by {
                        assert(shown(before, o) =~= shown(inserted, o));
                    }
                    lemma_listing_stands(self.subscriptions@[i].listing, before, inserted, key);
                }
            }
            self.resettle();
            return true;
        }
        proof {
            assert forall|o: NodeId, name: Seq<char>| #[trigger]
                differs(shown(before, o), shown(inserted, o), name) implies names_contain(
                names@,
                name,
            ) by {
                if o == origin {
                    assert(shown(inserted, o) == replica@.entries);
                } else {
                    assert(shown(before, o) == shown(inserted, o));
                }
            }
        }
        self.republish(&names, Ghost(before));
        self.resettle();
        true
    }

    /// Drops the sets of every incarnation the fence covers.
    pub fn evict_fenced(&mut self, fence: NodeId)
        requires
            old(self).wf(),
        ensures
            final(self).wf(),
            final(self)@ == old(self)@.evicted(fence),
            is_republished(
                old(self).subscribed(),
                final(self).subscribed(),
                final(self)@.replicas,
            ),
    {
        let ghost before = self@.replicas;
        let ghost table = self.replicas@;
        let mut names: Vec<String> = Vec::new();
        let nothing: Vec<WireRegistration> = Vec::new();
        assert(nothing.deep_view() =~= Seq::empty());
        let mut i: usize = 0;
        while i < self.replicas.entries.len()
            invariant
                table == self.replicas@,
                i <= table.len(),
                self@ == old(self)@,
                self.wf(),
                self.subscriptions@ == old(self).subscribed(),
                nothing.deep_view() == Seq::<WireRegistrationModel>::empty(),
                forall|j: int, r: WireRegistrationModel|
                    0 <= j < i && fence.fences(table[j].0) && #[trigger] occurrences(
                        table[j].1@.entries,
                        r,
                    ) > 0 ==> names_contain(names@, r.key.name),
            decreases table.len() - i,
        {
            let ghost so_far = names@;
            if fence.covers(self.replicas.entries[i].0) {
                add_changed_names(&mut names, &self.replicas.entries[i].1.entries, &nothing);
                proof {
                    let entries = table[i as int].1@.entries;
                    assert forall|r: WireRegistrationModel| #[trigger]
                        occurrences(entries, r) > 0 implies names_contain(names@, r.key.name) by {
                        lemma_occurs(entries, r);
                        lemma_occurs(Seq::empty(), r);
                        assert(occurrences(entries, r) != occurrences(nothing.deep_view(), r));
                    }
                }
            }
            proof {
                assert forall|j: int, r: WireRegistrationModel|
                    0 <= j < i + 1 && fence.fences(table[j].0) && #[trigger] occurrences(
                        table[j].1@.entries,
                        r,
                    ) > 0 implies names_contain(names@, r.key.name) by {
                    if j < i {
                        assert(names_contain(so_far, r.key.name));
                    }
                }
            }
            i = i + 1;
        }
        let ghost p = |e: (NodeId, Replica)| !fence.fences(e.0);
        let keep = |origin: &NodeId, replica: &Replica| -> (r: bool)
            ensures
                r == !fence.fences(*origin),
            { !fence.covers(*origin) };
        self.replicas.retain(keep, Ghost(p));
        let ghost remaining = Map::new(
            |n: NodeId| before.dom().contains(n) && !fence.fences(n),
            |n: NodeId| before[n],
        );
        proof {
            assert(self@.replicas =~= remaining);
            assert forall|o: NodeId, name: Seq<char>| #[trigger]
                differs(shown(before, o), shown(remaining, o), name) implies names_contain(
                names@,
                name,
            ) by {
                let r = choose|r: WireRegistrationModel|
                    r.key.name == name && #[trigger] occurrences(shown(before, o), r)
                        != occurrences(shown(remaining, o), r);
                lemma_occurs(Seq::empty(), r);
                if !(before.dom().contains(o) && fence.fences(o)) {
                    assert(shown(before, o) == shown(remaining, o));
                } else {
                    assert(shown(remaining, o) == Seq::<WireRegistrationModel>::empty());
                    let j = lemma_map_in_entries(table, o);
                    assert(occurrences(table[j].1@.entries, r) > 0);
                }
            }
        }
        self.republish(&names, Ghost(before));
        self.resettle();
    }

    /// Shows an origin's set now that the origin is Up.
    pub fn origin_up(&mut self, origin: NodeId)
        requires
            old(self).wf(),
        ensures
            final(self).wf(),
            !old(self)@.is_hidden(origin) ==> final(self)@ == old(self)@ && final(self).subscribed() == old(self).subscribed(),
            old(self)@.is_hidden(origin) ==> final(self)@ == old(self)@.with_origin_up(origin)
                && is_republished(
                old(self).subscribed(),
                final(self).subscribed(),
                final(self)@.replicas,
            ),
    {
        let ghost before = self@.replicas;
        match self.replicas.get(origin) {
            Some(replica) => {
                if replica.visible {
                    return ;
                }
            },
            None => {
                return ;
            },
        }
        if let Some(mut replica) = self.replicas.remove(origin) {
            let ghost table = self.replicas@;
            let ghost removed = replica@;
            assert(replica_models(table) =~= before.remove(origin));
            replica.visible = true;
            let nothing: Vec<WireRegistration> = Vec::new();
            assert(nothing.deep_view() =~= Seq::empty());
            let names = changed_names(&nothing, &replica.entries);
            proof {
                lemma_replica_models_insert(table, origin, replica);
            }
            self.replicas.insert(origin, replica);
            let ghost now = before.insert(origin, ReplicaModel { visible: true, ..before[origin] });
            proof {
                assert(self@.replicas =~= now);
                assert forall|o: NodeId, name: Seq<char>| #[trigger]
                    differs(shown(before, o), shown(now, o), name) implies names_contain(
                    names@,
                    name,
                ) by {
                    if o == origin {
                        assert(shown(before, o) == Seq::<WireRegistrationModel>::empty());
                    } else {
                        assert(shown(before, o) == shown(now, o));
                    }
                }
            }
            self.republish(&names, Ghost(before));
            self.resettle();
        }
    }

    /// Every actor registered under the key as far as its registration has reached this node.
    pub fn listing(&self, key: &WireKey) -> (listing: Listing)
        requires
            self.wf(),
        ensures
            lists(listing, self@.replicas, key.deep_view()),
    {
        compute_listing(&self.replicas, key)
    }
}

/// Whether every Up member but the node has delivered a set which is shown.
fn compute_settled(state: &ClusterState, node: NodeId, replicas: &Table<NodeId, Replica>) -> (r:
    bool)
    requires
        replicas.wf(),
    ensures
        r == is_settled(state@, node, replica_models(replicas@)),
{
    let mut i: usize = 0;
    while i < state.members.len()
        invariant
            replicas.wf(),
            i <= state.members@.len(),
            forall|j: int|
                0 <= j < i && (#[trigger] state.members@[j]).state == MemberState::Up
                    && state.members@[j].node != node ==> replica_models(
                    replicas@,
                ).dom().contains(state.members@[j].node) && replica_models(
                    replicas@,
                )[state.members@[j].node].visible,
        decreases state.members@.len() - i,
    {
        let member = state.members[i];
        if member.state == MemberState::Up && member.node != node {
            let visible = match replicas.get(member.node) {
                Some(replica) => replica.visible,
                None => false,
            };
            if !visible {
                assert(state@.members[i as int] == member);
                return false;
            }
        }
        i = i + 1;
    }
    true
}

/// A subscription to the set of actors registered under one key across the cluster.
#[derive(Debug)]
pub struct Subscription<M> {
    pub key: WireKey,
    /// The revision read last.
    pub seen: u64,
    pub message: PhantomData<M>,
}

/// The index is the first with the key.
pub open spec fn is_subscribed_at(
    subscriptions: Seq<Subscribed>,
    key: WireKeyModel,
    i: int,
) -> bool {
    &&& 0 <= i < subscriptions.len()
    &&& subscriptions[i].key.deep_view() == key
    &&& forall|j: int| 0 <= j < i ==> (#[trigger] subscriptions[j]).key.deep_view() != key
}

pub open spec fn is_subscribed(subscriptions: Seq<Subscribed>, key: WireKeyModel) -> bool {
    exists|i: int| is_subscribed_at(subscriptions, key, i)
}

pub open spec fn one_more(n: usize) -> usize {
    if n == usize::MAX {
        n
    } else {
        (n + 1) as usize
    }
}

pub open spec fn one_less(n: usize) -> usize {
    if n == 0 {
        n
    } else {
        (n - 1) as usize
    }
}

impl Receptionist {
    fn subscription_index(&self, key: &WireKey) -> (at: Option<usize>)
        ensures
            at is Some == is_subscribed(self.subscriptions@, key.deep_view()),
            at matches Some(i) ==> is_subscribed_at(
                self.subscriptions@,
                key.deep_view(),
                i as int,
            ),
    {
        let mut i: usize = 0;
        while i < self.subscriptions.len()
            invariant
                i <= self.subscriptions@.len(),
                forall|j: int|
                    0 <= j < i ==> (#[trigger] self.subscriptions@[j]).key.deep_view()
                        != key.deep_view(),
            decreases self.subscriptions@.len() - i,
        {
            let held = &self.subscriptions[i].key;
            if held.name == key.name && held.type_tag == key.type_tag {
                assert(held.deep_view() == key.deep_view());
                assert(is_subscribed_at(self.subscriptions@, key.deep_view(), i as int));
                return Some(i);
            }
            i = i + 1;
        }
        None
    }

    /// Subscribes to the set a lookup of the key answers, as of now.
    pub fn subscribe<M>(&mut self, key: WireKey) -> (subscription: Subscription<M>)
        requires
            old(self).wf(),
        ensures
            final(self).wf(),
            final(self)@ == old(self)@,
            subscription.key.deep_view() == key.deep_view(),
            forall|i: int| #[trigger]
                is_subscribed_at(old(self).subscribed(), key.deep_view(), i) ==> {
                    let held = old(self).subscribed()[i];
                    &&& final(self).subscribed() == old(self).subscribed().update(
                        i,
                        (Subscribed { subscribers: one_more(held.subscribers), ..held }),
                    )
                    &&& subscription.seen == held.revision
                },
            !is_subscribed(old(self).subscribed(), key.deep_view()) ==> {
                let n = old(self).subscribed().len();
                &&& final(self).subscribed().len() == n + 1
                &&& final(self).subscribed().take(n as int) == old(self).subscribed()
                &&& final(self).subscribed()[n as int].key == key
                &&& final(self).subscribed()[n as int].revision == 0
                &&& final(self).subscribed()[n as int].subscribers == 1
                &&& subscription.seen == 0
            },
    {
        let wanted = key.copy();
        match self.subscription_index(&key) {
            Some(i) => {
                let ghost all = self.subscriptions@;
                let mut held = self.subscriptions.remove(i);
                let seen: u64 = held.revision;
                if held.subscribers < usize::MAX {
                    held.subscribers = held.subscribers + 1;
                }
                self.subscriptions.insert(i, held);
                proof {
                    assert(self.subscriptions@ =~= all.update(i as int, held));
                    assert forall|j: int|
                        is_subscribed_at(all, key.deep_view(), j) implies j == i by {
                        if j < i {
                            assert(all[j].key.deep_view() != key.deep_view());
                        } else if i < j {
                            assert(all[i as int].key.deep_view() != key.deep_view());
                        }
                    }
                }
                Subscription { key: wanted, seen, message: PhantomData }
            },
            None => {
                let ghost all = self.subscriptions@;
                let listing = compute_listing(&self.replicas, &key);
                self.subscriptions.push(Subscribed { key, listing, revision: 0, subscribers: 1 });
                assert(self.subscriptions@.take(all.len() as int) =~= all);
                Subscription { key: wanted, seen: 0, message: PhantomData }
            },
        }
    }

    /// Ends one subscription to the key. The key itself is dropped with the next change once nobody
    /// reads it anymore.
    pub fn unsubscribe(&mut self, key: &WireKey)
        requires
            old(self).wf(),
        ensures
            final(self).wf(),
            final(self)@ == old(self)@,
            forall|i: int| #[trigger]
                is_subscribed_at(old(self).subscribed(), key.deep_view(), i) ==> {
                    let held = old(self).subscribed()[i];
                    final(self).subscribed() == old(self).subscribed().update(
                        i,
                        (Subscribed { subscribers: one_less(held.subscribers), ..held }),
                    )
                },
            !is_subscribed(old(self).subscribed(), key.deep_view()) ==> final(self).subscribed()
                == old(self).subscribed(),
    {
        if let Some(i) = self.subscription_index(key) {
            let ghost all = self.subscriptions@;
            let mut held = self.subscriptions.remove(i);
            if held.subscribers > 0 {
                held.subscribers = held.subscribers - 1;
            }
            self.subscriptions.insert(i, held);
            proof {
                assert(self.subscriptions@ =~= all.update(i as int, held));
                assert forall|j: int| is_subscribed_at(all, key.deep_view(), j) implies j == i by {
                    if j < i {
                        assert(all[j].key.deep_view() != key.deep_view());
                    } else if i < j {
                        assert(all[i as int].key.deep_view() != key.deep_view());
                    }
                }
            }
        }
    }

    /// Whether the set changed since it was read last.
    pub fn has_changed<M>(&self, subscription: &Subscription<M>) -> (r: bool)
        ensures
            forall|i: int| #[trigger]
                is_subscribed_at(self.subscribed(), subscription.key.deep_view(), i) ==> r == (
                self.subscribed()[i].revision != subscription.seen),
            !is_subscribed(self.subscribed(), subscription.key.deep_view()) ==> !r,
    {
        match self.subscription_index(&subscription.key) {
            Some(i) => {
                proof {
                    let k = subscription.key.deep_view();
                    assert forall|j: int| is_subscribed_at(self.subscriptions@, k, j) implies j
                        == i by {
                        if j < i {
                            assert(self.subscriptions@[j].key.deep_view() != k);
                        } else if i < j {
                            assert(self.subscriptions@[i as int].key.deep_view() != k);
                        }
                    }
                }
                self.subscriptions[i].revision != subscription.seen
            },
            None => false,
        }
    }

    /// The set as of now, which is what a lookup of the key answers; marks it as read.
    pub fn current<M>(&self, subscription: &mut Subscription<M>) -> (listing: Listing)
        requires
            self.wf(),
        ensures
            final(subscription).key == old(subscription).key,
            lists(listing, self@.replicas, old(subscription).key.deep_view()),
            forall|i: int| #[trigger]
                is_subscribed_at(self.subscribed(), old(subscription).key.deep_view(), i)
                    ==> final(subscription).seen == self.subscribed()[i].revision,
            !is_subscribed(self.subscribed(), old(subscription).key.deep_view()) ==> final(
                subscription).seen == old(subscription).seen,
    {
        if let Some(i) = self.subscription_index(&subscription.key) {
            proof {
                let k = subscription.key.deep_view();
                assert forall|j: int| is_subscribed_at(self.subscriptions@, k, j) implies j == i by {
                    if j < i {
                        assert(self.subscriptions@[j].key.deep_view() != k);
                    } else if i < j {
                        assert(self.subscriptions@[i as int].key.deep_view() != k);
                    }
                }
            }
            subscription.seen = self.subscriptions[i].revision;
        }
        compute_listing(&self.replicas, &subscription.key)
    }
}

pub open spec fn is_candidate(up: Seq<NodeId>) -> spec_fn(Entry) -> bool {
    |e: Entry| up.contains(e.origin)
}

/// The entries whose origin is Up.
pub open spec fn candidates(listing: Listing, up: Seq<NodeId>) -> Seq<Entry> {
    listing.entries@.filter(is_candidate(up))
}

/// An Up member holds the name under another type.
pub open spec fn is_held_otherwise(listing: Listing, up: Seq<NodeId>) -> bool {
    exists|i: int|
        0 <= i < listing.other_types@.len() && up.contains(#[trigger] listing.other_types@[i])
}

/// Every candidate was resolved, in order.
pub open spec fn is_resolution<R, F: Fn(Entry) -> Result<R, LocalRefError>>(
    resolutions: Seq<Result<R, LocalRefError>>,
    entries: Seq<Entry>,
    resolve_ref: F,
) -> bool {
    &&& resolutions.len() == entries.len()
    &&& forall|i: int|
        0 <= i < resolutions.len() ==> call_ensures(
            resolve_ref,
            (entries[i],),
            #[trigger] resolutions[i],
        )
}

pub open spec fn is_resolved<R>() -> spec_fn(Result<R, LocalRefError>) -> bool {
    |r: Result<R, LocalRefError>| r is Ok
}

/// The resolved references; none at all is a mismatch if the name is held under another type.
pub open spec fn answer<R>(resolutions: Seq<Result<R, LocalRefError>>, mismatch: bool) -> Result<
    Seq<R>,
    ReceptionistError,
> {
    let references = resolutions.filter(is_resolved()).map_values(
        |r: Result<R, LocalRefError>| r->Ok_0,
    );
    if references.len() == 0 && mismatch {
        Err(ReceptionistError::TypeMismatch)
    } else {
        Ok(references)
    }
}

pub open spec fn answer_view<R>(r: Result<Vec<R>, ReceptionistError>) -> Result<
    Seq<R>,
    ReceptionistError,
> {
    match r {
        Ok(references) => Ok(references@),
        Err(e) => Err(e),
    }
}

/// The listing resolved into references and filtered against the Up members. An entry which cannot
/// be resolved is left out.
pub fn resolve<R, F: Fn(Entry) -> Result<R, LocalRefError>>(
    listing: &Listing,
    up: &[NodeId],
    resolve_ref: F,
) -> (r: Result<Vec<R>, ReceptionistError>)
    requires
        forall|e: Entry| #[trigger] call_requires(resolve_ref, (e,)),
    ensures
        exists|resolutions: Seq<Result<R, LocalRefError>>|
            is_resolution(resolutions, candidates(*listing, up@), resolve_ref) && answer_view(r)
                == #[trigger] answer(resolutions, is_held_otherwise(*listing, up@)),
{
    let ghost p = is_candidate(up@);
    let ghost q = is_resolved::<R>();
    let ghost f = |r: Result<R, LocalRefError>| r->Ok_0;
    let ghost all = listing.entries@;
    let mut references: Vec<R> = Vec::new();
    let ghost mut resolutions: Seq<Result<R, LocalRefError>> = Seq::empty();
    let mut i: usize = 0;
    proof {
        lemma_filter_start(all, p);
        reveal(Seq::filter);
        assert(resolutions.filter(q) =~= Seq::empty());
        assert(references@ =~= resolutions.filter(q).map_values(f));
    }
    while i < listing.entries.len()
        invariant
            forall|e: Entry| #[trigger] call_requires(resolve_ref, (e,)),
            i <= all.len(),
            all == listing.entries@,
            p == is_candidate(up@),
            q == is_resolved::<R>(),
            f == (|r: Result<R, LocalRefError>| r->Ok_0),
            is_resolution(resolutions, all.take(i as int).filter(p), resolve_ref),
            references@ == resolutions.filter(q).map_values(f),
        decreases all.len() - i,
    {
        let entry = listing.entries[i];
        proof {
            lemma_filter_step(all, p, i as int);
        }
        if has_node(up, entry.origin) {
            let ghost before = resolutions;
            let ghost held = references@;
            let resolution = resolve_ref(entry);
            proof {
                resolutions = before.push(resolution);
                reveal(Seq::filter);
                assert(resolutions.drop_last() =~= before);
                assert forall|j: int| 0 <= j < resolutions.len() implies call_ensures(
                    resolve_ref,
                    (all.take(i + 1).filter(p)[j],),
                    #[trigger] resolutions[j],
                ) by {
                    if j < before.len() {
                        assert(resolutions[j] == before[j]);
                    }
                }
            }
            match resolution {
                Ok(reference) => {
                    references.push(reference);
                    assert(references@ =~= resolutions.filter(q).map_values(f));
                },
                Err(_) => {},
            }
        }
        i = i + 1;
    }
    proof {
        lemma_filter_start(all, p);
        assert(is_resolution(resolutions, candidates(*listing, up@), resolve_ref));
    }
    let mut mismatch = false;
    let mut j: usize = 0;
    while j < listing.other_types.len()
        invariant
            j <= listing.other_types@.len(),
            mismatch == (exists|k: int|
                0 <= k < j && up@.contains(#[trigger] listing.other_types@[k])),
        decreases listing.other_types@.len() - j,
    {
        if has_node(up, listing.other_types[j]) {
            assert(up@.contains(listing.other_types@[j as int]));
            mismatch = true;
        }
        j = j + 1;
    }
    assert(mismatch == is_held_otherwise(*listing, up@));
    if references.len() == 0 && mismatch {
        let r = Err(ReceptionistError::TypeMismatch);
        assert(answer_view(r) == answer(resolutions, mismatch));
        r
    } else {
        let r = Ok(references);
        assert(answer_view(r) == answer(resolutions, mismatch));
        r
    }
}

/// The registrations are an answer for the key: resolved from its listing, on Up members.
pub open spec fn is_answer<R, F: Fn(Entry) -> Result<R, LocalRefError>>(
    r: Result<Vec<R>, ReceptionistError>,
    replicas: Map<NodeId, ReplicaModel>,
    up: Seq<NodeId>,
    key: WireKeyModel,
    resolve_ref: F,
) -> bool {
    exists|listing: Listing, resolutions: Seq<Result<R, LocalRefError>>|
        lists(listing, replicas, key) && is_resolution(
            resolutions,
            candidates(listing, up),
            resolve_ref,
        ) && answer_view(r) == #[trigger] answer(resolutions, is_held_otherwise(listing, up))
}

/// Every actor registered under the key on an Up member, this node included, as far as their
/// registrations have reached this node. No frame is sent.
pub fn lookup<R, F: Fn(Entry) -> Result<R, LocalRefError>>(
    receptionist: Option<&Receptionist>,
    up: &[NodeId],
    key: &WireKey,
    resolve_ref: F,
) -> (r: Result<Vec<R>, ReceptionistError>)
    requires
        receptionist matches Some(receptionist) ==> receptionist.wf(),
        forall|e: Entry| #[trigger] call_requires(resolve_ref, (e,)),
    ensures
        receptionist is None ==> r == Err::<Vec<R>, ReceptionistError>(
            ReceptionistError::EndpointNotStarted,
        ),
        receptionist matches Some(receptionist) ==> is_answer(
            r,
            receptionist@.replicas,
            up@,
            key.deep_view(),
            resolve_ref,
        ),
{
    match receptionist {
        Some(receptionist) => {
            let listing = receptionist.listing(key);
            resolve(&listing, up, resolve_ref)
        },
        None => Err(ReceptionistError::EndpointNotStarted),
    }
}

/// An entry is listed if and only if its origin's set is shown and holds it: not before the set has
/// arrived and its origin is Up, and not after it is evicted.
pub proof fn what_is_shown_is_listed(
    listing: Listing,
    replicas: Map<NodeId, ReplicaModel>,
    key: WireKeyModel,
    entry: Entry,
)
    requires
        lists(listing, replicas, key),
    ensures
        listing.entries@.contains(entry) == (replicas.dom().contains(entry.origin)
            && replicas[entry.origin].visible && replicas[entry.origin].entries.contains(
            WireRegistrationModel { key, id: entry.id },
        )),
{
    let registration = WireRegistrationModel { key, id: entry.id };
    let held = shown(replicas, entry.origin);
    held.to_multiset_ensures();
    listing.entries@.to_multiset_ensures();
    assert(held.contains(registration) == (held.to_multiset().count(registration) > 0));
    assert(listing.entries@.contains(entry) == (listing.entries@.to_multiset().count(entry) > 0));
}

/// Nothing of a dead node is listed: not an actor of it, nor that it holds the name.
pub proof fn the_dead_are_not_listed(
    receptionist: ReceptionistModel,
    fence: NodeId,
    listing: Listing,
    key: WireKeyModel,
)
    requires
        lists(listing, receptionist.evicted(fence).replicas, key),
    ensures
        forall|i: int|
            0 <= i < listing.entries@.len() ==> !fence.fences(
                (#[trigger] listing.entries@[i]).origin,
            ),
        forall|i: int|
            0 <= i < listing.other_types@.len() ==> !fence.fences(
                #[trigger] listing.other_types@[i],
            ),
{
    let replicas = receptionist.evicted(fence).replicas;
    assert forall|i: int| 0 <= i < listing.entries@.len() implies !fence.fences(
        (#[trigger] listing.entries@[i]).origin,
    ) by {
        assert(listing.entries@.contains(listing.entries@[i]));
        what_is_shown_is_listed(listing, replicas, key, listing.entries@[i]);
    }
    listing.other_types@.to_multiset_ensures();
    assert forall|i: int| 0 <= i < listing.other_types@.len() implies !fence.fences(
        #[trigger] listing.other_types@[i],
    ) by {
        let node = listing.other_types@[i];
        assert(listing.other_types@.contains(node));
        assert(listing.other_types@.to_multiset().count(node) > 0);
        if fence.fences(node) {
            assert(shown(replicas, node) =~= Seq::empty());
        }
    }
}

/// A set is applied once, and none older follows it.
pub proof fn a_set_is_applied_once(
    receptionist: ReceptionistModel,
    origin: NodeId,
    replica: ReplicaModel,
    version: u64,
    visible: bool,
)
    ensures
        receptionist.with_replica(origin, replica).applied_version(origin) == Some(replica.version),
        version <= replica.version ==> !receptionist.with_replica(origin, replica).applies(
            origin,
            version,
            visible,
        ),
{
}

/// The verdict is always about the current state and the current sets, and a state is published before
/// the verdict on it.
pub proof fn the_verdict_follows_the_state(
    receptionist: ReceptionistModel,
    state: ClusterStateModel,
)
    ensures
        ({
            let after = receptionist.publishing(state);
            let before = receptionist.published;
            &&& after.settlement == after.verdict()
            &&& after.settlement.version == state.version
            &&& after.published.len() > before.len()
            &&& after.published.take(before.len() as int) == before
            &&& after.published[before.len() as int] == PublishedChangeModel::State(state)
        }),
{
    let after = receptionist.publishing(state);
    assert(after.published.take(receptionist.published.len() as int) =~= receptionist.published);
}

/// A settled answer is complete: everything the Up members have registered under the key, as far as
/// their sets say, is listed.
pub proof fn a_settled_answer_is_complete(
    receptionist: ReceptionistModel,
    listing: Listing,
    key: WireKeyModel,
    member: int,
    id: ActorId,
)
    requires
        receptionist.verdict().settled,
        lists(listing, receptionist.replicas, key),
        0 <= member < receptionist.state.members.len(),
        receptionist.state.members[member].state == MemberState::Up,
        receptionist.state.members[member].node != receptionist.node,
        receptionist.replicas[receptionist.state.members[member].node].entries.contains(
            (WireRegistrationModel { key, id }),
        ),
    ensures
        listing.entries@.contains(
            Entry { origin: receptionist.state.members[member].node, id },
        ),
{
    what_is_shown_is_listed(
        listing,
        receptionist.replicas,
        key,
        Entry { origin: receptionist.state.members[member].node, id },
    );
}

/// A set is applied if it is the first of its origin, or newer than the one there without hiding what
/// is shown.
pub proof fn a_newer_set_is_applied(
    receptionist: ReceptionistModel,
    origin: NodeId,
    version: u64,
    visible: bool,
)
    ensures
        ({
            let held = receptionist.replicas.dom().contains(origin);
            let replica = receptionist.replicas[origin];
            &&& !held ==> receptionist.applies(origin, version, visible)
            &&& held ==> (receptionist.applies(origin, version, visible) <==> version
                > replica.version && !(replica.visible && !visible))
            &&& receptionist.applied_version(origin) == (if held {
                Some(replica.version)
            } else {
                None
            })
        }),
{
}

/// A set applied replaces its origin's and no other; a death takes the sets of every incarnation it
/// covers and leaves the rest; an origin which came up has its own set shown. Each leaves a verdict on
/// what is held then, published under the next number exactly if it is another one.
pub proof fn sets_come_and_go(
    receptionist: ReceptionistModel,
    origin: NodeId,
    replica: ReplicaModel,
    other: NodeId,
)
    ensures
        ({
            let applied = receptionist.with_replica(origin, replica);
            let evicted = receptionist.evicted(origin);
            let shown = receptionist.with_origin_up(origin);
            let covered = other.addr == origin.addr && other.incarnation.0 <= origin.incarnation.0;
            let held = receptionist.replicas.dom().contains(other);
            &&& applied.replicas == receptionist.replicas.insert(origin, replica)
            &&& evicted.replicas.dom().contains(other) <==> held && !covered
            &&& held && !covered ==> evicted.replicas[other] == receptionist.replicas[other]
            &&& shown.replicas == receptionist.replicas.insert(
                origin,
                ReplicaModel {
                    version: receptionist.replicas[origin].version,
                    visible: true,
                    entries: receptionist.replicas[origin].entries,
                },
            )
            &&& is_told(receptionist, applied) && is_told(receptionist, evicted) && is_told(
                receptionist,
                shown,
            )
        }),
{
}

/// The state is as it was, the verdict is on it and on the sets held, and it was published, under the
/// next number, exactly if it is another one.
pub open spec fn is_told(before: ReceptionistModel, after: ReceptionistModel) -> bool {
    let settled = forall|i: int|
        0 <= i < after.state.members.len() && (#[trigger] after.state.members[i]).state
            == MemberState::Up && after.state.members[i].node != after.node
            ==> after.replicas.dom().contains(after.state.members[i].node)
            && after.replicas[after.state.members[i].node].visible;
    &&& after.node == before.node && after.state == before.state
    &&& after.settlement.version == before.state.version
    &&& after.settlement.settled == settled
    &&& after.settlement == before.settlement ==> after.published == before.published && after.seq
        == before.seq
    &&& after.settlement != before.settlement ==> after.published == before.published.push(
        PublishedChangeModel::Settled { settlement: after.settlement, seq: after.seq },
    )
    &&& after.settlement != before.settlement && before.seq < u64::MAX ==> after.seq == before.seq
        + 1
}

/// A node is listed as holding a name otherwise if what it shows has the name under another type.
pub proof fn other_types_are_listed(
    listing: Listing,
    replicas: Map<NodeId, ReplicaModel>,
    key: WireKeyModel,
    node: NodeId,
)
    requires
        lists(listing, replicas, key),
    ensures
        listing.other_types@.contains(node) <==> replicas.dom().contains(node)
            && replicas[node].visible && exists|i: int|
            0 <= i < replicas[node].entries.len() && (#[trigger] replicas[node].entries[i]).key.name
                == key.name && replicas[node].entries[i].key.type_tag != key.type_tag,
{
    listing.other_types@.to_multiset_ensures();
    let held = shown(replicas, node);
    assert(listing.other_types@.contains(node) == (listing.other_types@.to_multiset().count(node)
        > 0));
    if has_other_type(held, key) {
        let i = choose|i: int| 0 <= i < held.len() && is_other_type(key, #[trigger] held[i]);
        assert(replicas[node].entries[i].key.name == key.name);
    }
    if replicas.dom().contains(node) && replicas[node].visible && exists|i: int|
        0 <= i < replicas[node].entries.len() && (#[trigger] replicas[node].entries[i]).key.name
            == key.name && replicas[node].entries[i].key.type_tag != key.type_tag {
        let i = choose|i: int|
            0 <= i < replicas[node].entries.len() && (#[trigger] replicas[node].entries[i]).key.name
                == key.name && replicas[node].entries[i].key.type_tag != key.type_tag;
        assert(is_other_type(key, held[i]));
    }
}

/// An answer holds what resolves, in its order. It fails where nothing does and a live node holds the
/// name under another type.
pub proof fn an_answer_holds_what_resolves<R>(
    resolutions: Seq<Result<R, LocalRefError>>,
    mismatch: bool,
    reference: R,
)
    ensures
        ({
            let resolved = exists|i: int|
                0 <= i < resolutions.len() && (#[trigger] resolutions[i]) is Ok;
            &&& answer(resolutions, mismatch) is Err <==> mismatch && !resolved
            &&& answer(resolutions, mismatch) matches Err(error) ==> error
                == ReceptionistError::TypeMismatch
            &&& answer(resolutions, mismatch) matches Ok(references) ==> {
                &&& references == resolutions.filter(
                    |r: Result<R, LocalRefError>| r is Ok,
                ).map_values(|r: Result<R, LocalRefError>| r->Ok_0)
                &&& references.contains(reference) <==> exists|i: int|
                    0 <= i < resolutions.len() && #[trigger] resolutions[i] == Ok::<
                        R,
                        LocalRefError,
                    >(reference)
            }
        }),
{
    let ok = is_resolved::<R>();
    assert(ok =~= (|r: Result<R, LocalRefError>| r is Ok));
    let kept = resolutions.filter(ok);
    let references = kept.map_values(|r: Result<R, LocalRefError>| r->Ok_0);
    if exists|i: int| 0 <= i < resolutions.len() && (#[trigger] resolutions[i]) is Ok {
        let i = choose|i: int| 0 <= i < resolutions.len() && (#[trigger] resolutions[i]) is Ok;
        crate::seqs::lemma_filter_contains(resolutions, ok, resolutions[i]);
        assert(resolutions.contains(resolutions[i]));
    } else if kept.len() > 0 {
        crate::seqs::lemma_filter_contains(resolutions, ok, kept[0]);
        assert(kept.contains(kept[0]));
        let i = choose|i: int| 0 <= i < resolutions.len() && resolutions[i] == kept[0];
        assert(resolutions[i] is Ok);
    }
    let found = Ok::<R, LocalRefError>(reference);
    crate::seqs::lemma_filter_contains(resolutions, ok, found);
    if references.contains(reference) {
        let j = choose|j: int| 0 <= j < references.len() && references[j] == reference;
        assert(kept.contains(kept[j]));
        crate::seqs::lemma_filter_contains(resolutions, ok, kept[j]);
        assert(kept[j] == found);
        let i = choose|i: int| 0 <= i < resolutions.len() && resolutions[i] == found;
        assert(resolutions[i] == found);
    }
    if exists|i: int|
        0 <= i < resolutions.len() && #[trigger] resolutions[i] == found {
        let i = choose|i: int| 0 <= i < resolutions.len() && #[trigger] resolutions[i] == found;
        assert(resolutions.contains(found));
        let j = choose|j: int| 0 <= j < kept.len() && kept[j] == found;
        assert(references[j] == reference);
    }
}

/// Only entries of nodes up are resolved, all of them and in the listing's order.
pub proof fn only_the_living_are_resolved(listing: Listing, up: Seq<NodeId>, entry: Entry)
    ensures
        candidates(listing, up) == listing.entries@.filter(|e: Entry| up.contains(e.origin)),
        candidates(listing, up).contains(entry) <==> listing.entries@.contains(entry) && up.contains(
            entry.origin,
        ),
        is_held_otherwise(listing, up) <==> exists|node: NodeId| #[trigger]
            listing.other_types@.contains(node) && up.contains(node),
{
    assert(is_candidate(up) =~= (|e: Entry| up.contains(e.origin)));
    crate::seqs::lemma_filter_contains(listing.entries@, is_candidate(up), entry);
    let others = listing.other_types@;
    if is_held_otherwise(listing, up) {
        let i = choose|i: int| 0 <= i < others.len() && up.contains(#[trigger] others[i]);
        assert(others.contains(others[i]) && up.contains(others[i]));
    }
    if exists|node: NodeId| #[trigger] others.contains(node) && up.contains(node) {
        let node = choose|node: NodeId| #[trigger] others.contains(node) && up.contains(node);
        let i = choose|i: int| 0 <= i < others.len() && others[i] == node;
        assert(up.contains(others[i]));
    }
}

/// A subscription's revision moves exactly where its listing no longer says what is held, and its
/// listing says so then.
pub proof fn a_revision_moves_with_its_listing(
    before: Subscribed,
    after: Subscribed,
    replicas: Map<NodeId, ReplicaModel>,
)
    requires
        is_refreshed(before, after, replicas),
    ensures
        ({
            let key = before.key.deep_view();
            let current = lists(before.listing, replicas, key);
            &&& lists(after.listing, replicas, key)
            &&& after.key.deep_view() == key && after.subscribers == before.subscribers
            &&& after.revision == before.revision <==> current
            &&& current ==> after.listing == before.listing
        }),
{
}

/// A subscriber reads the listing held now and has seen it then: nothing has changed for it until the
/// revision moves.
pub proof fn a_read_listing_is_seen<M>(
    receptionist: &Receptionist,
    subscription: &mut Subscription<M>,
    listing: Listing,
    read: &Subscription<M>,
    changed: bool,
)
    requires
        call_ensures(Receptionist::current::<M>, (receptionist, subscription), listing),
        call_ensures(Receptionist::has_changed::<M>, (receptionist, read), changed),
        *read == *final(subscription),
        is_subscribed(receptionist.subscribed(), old(subscription).key.deep_view()),
    ensures
        lists(listing, receptionist@.replicas, old(subscription).key.deep_view()),
        !changed,
{
    let i = choose|i: int|
        is_subscribed_at(receptionist.subscribed(), old(subscription).key.deep_view(), i);
    assert(is_subscribed_at(receptionist.subscribed(), old(subscription).key.deep_view(), i));
}

/// A change is news to a subscriber which has not seen its revision.
pub proof fn an_unseen_revision_is_news<M>(
    receptionist: &Receptionist,
    subscription: &Subscription<M>,
    changed: bool,
    i: int,
)
    requires
        call_ensures(Receptionist::has_changed::<M>, (receptionist, subscription), changed),
        0 <= i < receptionist.subscribed().len(),
        receptionist.subscribed()[i].key.deep_view() == subscription.key.deep_view(),
        forall|j: int|
            0 <= j < i ==> (#[trigger] receptionist.subscribed()[j]).key.deep_view()
                != subscription.key.deep_view(),
    ensures
        changed <==> receptionist.subscribed()[i].revision != subscription.seen,
{
    assert(is_subscribed_at(receptionist.subscribed(), subscription.key.deep_view(), i));
}

/// The directory has settled at a version exactly if that is the state's and every member Up there,
/// but this node, has its set shown.
pub proof fn the_directory_settles_with_its_members(
    receptionist: &Receptionist,
    version: u64,
    settled: bool,
)
    requires
        call_ensures(Receptionist::settled, (receptionist, version), settled),
    ensures
        settled <==> receptionist@.state.version == version && forall|i: int|
            0 <= i < receptionist@.state.members.len() && (
            #[trigger] receptionist@.state.members[i]).state == MemberState::Up
                && receptionist@.state.members[i].node != receptionist@.node
                ==> receptionist@.replicas.dom().contains(receptionist@.state.members[i].node)
                && receptionist@.replicas[receptionist@.state.members[i].node].visible,
{
}

/// Republishing keeps every subscription which somebody holds, refreshed, and no other.
pub proof fn held_subscriptions_are_refreshed(
    before: Seq<Subscribed>,
    after: Seq<Subscribed>,
    replicas: Map<NodeId, ReplicaModel>,
    i: int,
)
    requires
        is_republished(before, after, replicas),
    ensures
        0 <= i < before.len() && before[i].subscribers > 0 ==> exists|j: int|
            0 <= j < after.len() && is_refreshed(before[i], #[trigger] after[j], replicas),
        0 <= i < after.len() ==> exists|j: int|
            0 <= j < before.len() && before[j].subscribers > 0 && is_refreshed(
                #[trigger] before[j],
                after[i],
                replicas,
            ),
{
    let held = |s: Subscribed| s.is_open();
    let open = before.filter(held);
    if 0 <= i < before.len() && before[i].subscribers > 0 {
        assert(before.contains(before[i]));
        crate::seqs::lemma_filter_contains(before, held, before[i]);
        let j = choose|j: int| 0 <= j < open.len() && open[j] == before[i];
        assert(is_refreshed(before[i], after[j], replicas));
    }
    if 0 <= i < after.len() {
        assert(is_refreshed(open[i], after[i], replicas));
        assert(open.contains(open[i]));
        crate::seqs::lemma_filter_contains(before, held, open[i]);
        let j = choose|j: int| 0 <= j < before.len() && before[j] == open[i];
        assert(is_refreshed(before[j], after[i], replicas));
    }
}

/// Every reference an answer holds resolves an entry which is held under the key, shown, and of a node
/// up.
pub proof fn every_reference_resolves_an_entry<R, F: Fn(Entry) -> Result<R, LocalRefError>>(
    r: Result<Vec<R>, ReceptionistError>,
    replicas: Map<NodeId, ReplicaModel>,
    up: Seq<NodeId>,
    key: WireKeyModel,
    resolve_ref: F,
    i: int,
)
    requires
        is_answer(r, replicas, up, key, resolve_ref),
        r is Ok,
        0 <= i < r->Ok_0@.len(),
    ensures
        exists|entry: Entry| #[trigger]
            call_ensures(resolve_ref, (entry,), Ok::<R, LocalRefError>(r->Ok_0@[i])) && up.contains(
                entry.origin,
            ) && replicas.dom().contains(entry.origin) && replicas[entry.origin].visible
                && replicas[entry.origin].entries.contains(
                WireRegistrationModel { key, id: entry.id },
            ),
{
    let (listing, resolutions) = choose|
        listing: Listing,
        resolutions: Seq<Result<R, LocalRefError>>,
    |
        lists(listing, replicas, key) && is_resolution(
            resolutions,
            candidates(listing, up),
            resolve_ref,
        ) && answer_view(r) == #[trigger] answer(resolutions, is_held_otherwise(listing, up));
    let ok = is_resolved::<R>();
    let kept = resolutions.filter(ok);
    let reference = r->Ok_0@[i];
    assert(reference == kept[i]->Ok_0);
    assert(kept.contains(kept[i]));
    crate::seqs::lemma_filter_contains(resolutions, ok, kept[i]);
    let k = choose|k: int| 0 <= k < resolutions.len() && resolutions[k] == kept[i];
    let entries = candidates(listing, up);
    let entry = entries[k];
    assert(resolutions[k] == Ok::<R, LocalRefError>(reference));
    assert(call_ensures(resolve_ref, (entry,), resolutions[k]));
    assert(entries.contains(entry));
    crate::seqs::lemma_filter_contains(listing.entries@, is_candidate(up), entry);
    what_is_shown_is_listed(listing, replicas, key, entry);
}

} // verus!
