//! Death watch across nodes: the watchers this node's actors hold on remote actors, and the watches
//! other nodes hold on the actors of this node.

use vstd::prelude::*;

use crate::addr::SocketAddr;
use crate::ids::{ActorId, NodeId};
use crate::seqs::{lemma_filter_contains, lemma_filter_start, lemma_filter_step};
use crate::table::{as_map, has_key, lemma_entry_in_map, value_of, without, Ident, Table};
use crate::watch::Watcher;

verus! {

/// One local watcher of one remote actor.
#[derive(Debug, Clone, Copy, PartialEq, Eq, Structural)]
pub struct WatchKey {
    pub peer: NodeId,
    pub target: ActorId,
    pub watcher: ActorId,
}

impl Ident for WatchKey {
    fn same(&self, other: &Self) -> (r: bool) {
        *self == *other
    }
}

/// The local watchers of remote actors. The wire watch is per watcher, since a terminated signal
/// must name the watcher to ride its stream.
#[derive(Debug)]
pub struct WatcherTable<H> {
    pub watchers: Table<WatchKey, H>,
}

pub open spec fn is_target<H>(peer: NodeId, target: ActorId) -> spec_fn((WatchKey, H)) -> bool {
    |e: (WatchKey, H)| e.0.peer == peer && e.0.target == target
}

pub open spec fn is_at_addr<H>(addr: SocketAddr) -> spec_fn((WatchKey, H)) -> bool {
    |e: (WatchKey, H)| e.0.peer.addr == addr
}

pub open spec fn is_fenced<H>(fence: NodeId) -> spec_fn((WatchKey, H)) -> bool {
    |e: (WatchKey, H)| fence.fences(e.0.peer)
}

pub open spec fn is_of_peer<H>(peer: NodeId) -> spec_fn((WatchKey, H)) -> bool {
    |e: (WatchKey, H)| e.0.peer == peer
}

pub open spec fn is_not<A>(p: spec_fn(A) -> bool) -> spec_fn(A) -> bool {
    |a: A| !p(a)
}

/// The nodes watched, each once, in the order they came.
pub open spec fn watched_peers<H>(entries: Seq<(WatchKey, H)>) -> Seq<NodeId>
    decreases entries.len(),
{
    if entries.len() == 0 {
        Seq::empty()
    } else {
        let peers = watched_peers(entries.drop_last());
        if peers.contains(entries.last().0.peer) {
            peers
        } else {
            peers.push(entries.last().0.peer)
        }
    }
}

/// Who is told of whose termination.
pub open spec fn signals<H>(entries: Seq<(WatchKey, H)>) -> Seq<(ActorId, Watcher<H>)> {
    entries.map_values(
        |e: (WatchKey, H)| (e.0.target, Watcher { watcher_id: e.0.watcher, handler: e.1 }),
    )
}

pub open spec fn watch_pairs<H>(entries: Seq<(WatchKey, H)>, peer: NodeId) -> Seq<
    (ActorId, ActorId),
> {
    entries.filter(is_of_peer(peer)).map_values(|e: (WatchKey, H)| (e.0.target, e.0.watcher))
}

fn into_signals<H>(entries: Vec<(WatchKey, H)>) -> (told: Vec<(ActorId, Watcher<H>)>)
    ensures
        told@ == signals(entries@),
{
    let ghost all = entries@;
    let mut rest = entries;
    let mut told: Vec<(ActorId, Watcher<H>)> = Vec::new();
    assert(all.skip(0) =~= all);
    while rest.len() > 0
        invariant
            told@.len() + rest@.len() == all.len(),
            rest@ == all.skip(told@.len() as int),
            told@ =~= signals(all).take(told@.len() as int),
        decreases rest@.len(),
    {
        let ghost at = told@.len() as int;
        assert(rest@[0] == all[at]);
        let (key, handler) = rest.remove(0);
        assert(rest@ =~= all.skip(at + 1));
        told.push((key.target, Watcher { watcher_id: key.watcher, handler }));
    }
    assert(signals(all).take(all.len() as int) =~= signals(all));
    told
}

impl<H> View for WatcherTable<H> {
    type V = Seq<(WatchKey, H)>;

    open spec fn view(&self) -> Seq<(WatchKey, H)> {
        self.watchers@
    }
}

impl<H> WatcherTable<H> {
    pub open spec fn wf(&self) -> bool {
        self.watchers.wf()
    }

    pub fn new() -> (table: Self)
        ensures
            table.wf(),
            table@ == Seq::<(WatchKey, H)>::empty(),
    {
        WatcherTable { watchers: Table::new() }
    }

    /// Registers a watcher, once; whether a watch frame is due.
    pub fn add(&mut self, peer: NodeId, target: ActorId, watcher: Watcher<H>) -> (due: bool)
        requires
            old(self).wf(),
        ensures
            final(self).wf(),
            ({
                let key = WatchKey { peer, target, watcher: watcher.watcher_id };
                &&& due == !has_key(old(self)@, key)
                &&& final(self)@ == if due {
                    old(self)@.push((key, watcher.handler))
                } else {
                    old(self)@
                }
            }),
    {
        let key = WatchKey { peer, target, watcher: watcher.watcher_id };
        if self.watchers.contains_key(key) {
            false
        } else {
            self.watchers.insert(key, watcher.handler);
            true
        }
    }

    /// Deregisters a watcher; whether it was registered, i.e. an unwatch frame is due.
    pub fn remove(&mut self, peer: NodeId, target: ActorId, watcher: ActorId) -> (due: bool)
        requires
            old(self).wf(),
        ensures
            final(self).wf(),
            due == has_key(old(self)@, WatchKey { peer, target, watcher }),
            final(self)@ == without(old(self)@, WatchKey { peer, target, watcher }),
    {
        self.watchers.remove(WatchKey { peer, target, watcher }).is_some()
    }

    /// Takes one watcher out; the others of the target keep waiting for their signal.
    pub fn take_watcher(&mut self, peer: NodeId, target: ActorId, watcher: ActorId) -> (taken: Option<
        Watcher<H>,
    >)
        requires
            old(self).wf(),
        ensures
            final(self).wf(),
            final(self)@ == without(old(self)@, WatchKey { peer, target, watcher }),
            taken == match value_of(old(self)@, WatchKey { peer, target, watcher }) {
                Some(handler) => Some(Watcher { watcher_id: watcher, handler }),
                None => None,
            },
    {
        match self.watchers.remove(WatchKey { peer, target, watcher }) {
            Some(handler) => Some(Watcher { watcher_id: watcher, handler }),
            None => None,
        }
    }

    /// Takes all the watchers of one remote actor out.
    pub fn take_target(&mut self, peer: NodeId, target: ActorId) -> (taken: Vec<
        (ActorId, Watcher<H>),
    >)
        requires
            old(self).wf(),
        ensures
            final(self).wf(),
            final(self)@ == old(self)@.filter(is_not(is_target(peer, target))),
            taken@ == signals(old(self)@.filter(is_target(peer, target))),
    {
        let ghost p = is_not(is_target::<H>(peer, target));
        let keep = |key: &WatchKey, handler: &H| -> (r: bool)
            ensures
                r == !(key.peer == peer && key.target == target),
            { !(key.peer == peer && key.target == target) };
        let removed = self.watchers.split(keep, Ghost(p));
        assert((|e: (WatchKey, H)| !p(e)) =~= is_target(peer, target));
        into_signals(removed)
    }

    /// Takes the watchers of every incarnation at the address out.
    pub fn take_addr(&mut self, addr: SocketAddr) -> (taken: Vec<(ActorId, Watcher<H>)>)
        requires
            old(self).wf(),
        ensures
            final(self).wf(),
            final(self)@ == old(self)@.filter(is_not(is_at_addr(addr))),
            taken@ == signals(old(self)@.filter(is_at_addr(addr))),
    {
        let ghost p = is_not(is_at_addr::<H>(addr));
        let keep = |key: &WatchKey, handler: &H| -> (r: bool)
            ensures
                r == (key.peer.addr != addr),
            { key.peer.addr != addr };
        let removed = self.watchers.split(keep, Ghost(p));
        assert((|e: (WatchKey, H)| !p(e)) =~= is_at_addr(addr));
        into_signals(removed)
    }

    /// Takes the watchers of every incarnation the fence covers out; a newer one keeps its own.
    pub fn take_fenced(&mut self, fence: NodeId) -> (taken: Vec<(ActorId, Watcher<H>)>)
        requires
            old(self).wf(),
        ensures
            final(self).wf(),
            final(self)@ == old(self)@.filter(is_not(is_fenced(fence))),
            taken@ == signals(old(self)@.filter(is_fenced(fence))),
    {
        let ghost p = is_not(is_fenced::<H>(fence));
        let keep = |key: &WatchKey, handler: &H| -> (r: bool)
            ensures
                r == !fence.fences(key.peer),
            { !fence.covers(key.peer) };
        let removed = self.watchers.split(keep, Ghost(p));
        assert((|e: (WatchKey, H)| !p(e)) =~= is_fenced(fence));
        into_signals(removed)
    }

    /// The nodes something is watched on, each once.
    pub fn peers(&self) -> (peers: Vec<NodeId>)
        ensures
            peers@ == watched_peers(self@),
    {
        let mut peers: Vec<NodeId> = Vec::new();
        let mut i: usize = 0;
        assert(self@.take(0) =~= Seq::empty());
        while i < self.watchers.entries.len()
            invariant
                i <= self@.len(),
                peers@ == watched_peers(self@.take(i as int)),
            decreases self@.len() - i,
        {
            proof {
                assert(self@.take(i + 1).drop_last() =~= self@.take(i as int));
                assert(self@.take(i + 1).last() == self@[i as int]);
            }
            let peer = self.watchers.entries[i].0.peer;
            if !crate::cluster::reachability::has_node(peers.as_slice(), peer) {
                peers.push(peer);
            }
            i = i + 1;
        }
        assert(self@.take(i as int) =~= self@);
        peers
    }

    /// What is watched on the node: target and watcher.
    pub fn watches(&self, peer: NodeId) -> (watches: Vec<(ActorId, ActorId)>)
        ensures
            watches@ == watch_pairs(self@, peer),
    {
        let ghost p = is_of_peer::<H>(peer);
        let ghost s = self@;
        let mut watches: Vec<(ActorId, ActorId)> = Vec::new();
        let mut i: usize = 0;
        proof {
            lemma_filter_start(s, p);
            assert(watches@ =~= watch_pairs(s.take(0), peer));
        }
        while i < self.watchers.entries.len()
            invariant
                i <= s.len(),
                s == self@,
                p == is_of_peer::<H>(peer),
                watches@ =~= watch_pairs(s.take(i as int), peer),
            decreases s.len() - i,
        {
            proof {
                lemma_filter_step(s, p, i as int);
            }
            let key = self.watchers.entries[i].0;
            if key.peer == peer {
                watches.push((key.target, key.watcher));
            }
            i = i + 1;
        }
        proof {
            lemma_filter_start(s, p);
        }
        watches
    }
}

/// One actor of this node as watched from one other node.
#[derive(Debug, Clone, Copy, PartialEq, Eq, Structural)]
pub struct WireWatchKey {
    pub peer: NodeId,
    pub target: ActorId,
}

impl Ident for WireWatchKey {
    fn same(&self, other: &Self) -> (r: bool) {
        *self == *other
    }
}

/// The remote watchers of one actor. Only a registered wire watch has a local watcher.
#[derive(Debug)]
pub struct WireWatch {
    pub wire_watcher_id: Option<ActorId>,
    pub watchers: Vec<ActorId>,
}

#[verifier::ext_equal]
pub ghost struct WireWatchModel {
    pub wire_watcher_id: Option<ActorId>,
    pub watchers: Seq<ActorId>,
}

impl View for WireWatch {
    type V = WireWatchModel;

    open spec fn view(&self) -> WireWatchModel {
        WireWatchModel { wire_watcher_id: self.wire_watcher_id, watchers: self.watchers@ }
    }
}

pub open spec fn is_other_actor(actor: ActorId) -> spec_fn(ActorId) -> bool {
    |a: ActorId| a != actor
}

impl WireWatchModel {
    pub open spec fn with(self, watcher: ActorId) -> WireWatchModel {
        if self.watchers.contains(watcher) {
            self
        } else {
            WireWatchModel { watchers: self.watchers.push(watcher), ..self }
        }
    }

    pub open spec fn without(self, watcher: ActorId) -> WireWatchModel {
        WireWatchModel { watchers: self.watchers.filter(is_other_actor(watcher)), ..self }
    }
}

/// A watch which was taken and has a local watcher to deregister.
#[derive(Debug, Clone, Copy, PartialEq, Eq, Structural)]
pub struct RegisteredWatch {
    pub target: ActorId,
    pub wire_watcher_id: ActorId,
}

/// The wire watches other nodes hold on local actors.
#[derive(Debug)]
pub struct WireWatchTable {
    pub watches: Table<WireWatchKey, WireWatch>,
}

pub open spec fn wire_watches(entries: Seq<(WireWatchKey, WireWatch)>) -> Map<
    WireWatchKey,
    WireWatchModel,
> {
    as_map(entries).map_values(|w: WireWatch| w@)
}

impl View for WireWatchTable {
    type V = Map<WireWatchKey, WireWatchModel>;

    open spec fn view(&self) -> Map<WireWatchKey, WireWatchModel> {
        wire_watches(self.watches@)
    }
}

/// The local watchers behind the wire watches of the incarnations a fence covers.
pub open spec fn registered_under(
    watches: Map<WireWatchKey, WireWatchModel>,
    fence: NodeId,
) -> Set<RegisteredWatch> {
    Set::new(
        |r: RegisteredWatch|
            exists|k: WireWatchKey| #[trigger]
                watches.dom().contains(k) && fence.fences(k.peer) && k.target == r.target
                    && watches[k].wire_watcher_id == Some(r.wire_watcher_id),
    )
}

fn has_actor(actors: &Vec<ActorId>, actor: ActorId) -> (r: bool)
    ensures
        r == actors@.contains(actor),
{
    let mut i: usize = 0;
    while i < actors.len()
        invariant
            i <= actors@.len(),
            forall|j: int| 0 <= j < i ==> #[trigger] actors@[j] != actor,
        decreases actors@.len() - i,
    {
        if actors[i] == actor {
            return true;
        }
        i = i + 1;
    }
    false
}

fn without_actor(actors: &Vec<ActorId>, actor: ActorId) -> (rest: Vec<ActorId>)
    ensures
        rest@ == actors@.filter(is_other_actor(actor)),
{
    let ghost p = is_other_actor(actor);
    let mut rest: Vec<ActorId> = Vec::new();
    let mut i: usize = 0;
    proof {
        lemma_filter_start(actors@, p);
    }
    while i < actors.len()
        invariant
            i <= actors@.len(),
            p == is_other_actor(actor),
            rest@ == actors@.take(i as int).filter(p),
        decreases actors@.len() - i,
    {
        proof {
            lemma_filter_step(actors@, p, i as int);
        }
        if actors[i] != actor {
            rest.push(actors[i]);
        }
        i = i + 1;
    }
    proof {
        lemma_filter_start(actors@, p);
    }
    rest
}

impl WireWatchTable {
    pub open spec fn wf(&self) -> bool {
        self.watches.wf()
    }

    pub fn new() -> (table: Self)
        ensures
            table.wf(),
            table@ == Map::<WireWatchKey, WireWatchModel>::empty(),
    {
        let table = WireWatchTable { watches: Table::new() };
        assert(table@ =~= Map::<WireWatchKey, WireWatchModel>::empty());
        table
    }

    /// Adds a remote watcher; whether a registration is due, i.e. this is the target's first watcher
    /// on that peer.
    pub fn add(&mut self, peer: NodeId, target: ActorId, watcher: ActorId) -> (due: bool)
        requires
            old(self).wf(),
        ensures
            final(self).wf(),
            ({
                let key = WireWatchKey { peer, target };
                &&& due == !old(self)@.dom().contains(key)
                &&& final(self)@ == old(self)@.insert(
                    key,
                    if due {
                        WireWatchModel { wire_watcher_id: None, watchers: seq![watcher] }
                    } else {
                        old(self)@[key].with(watcher)
                    },
                )
            }),
    {
        let key = WireWatchKey { peer, target };
        let ghost before = self@;
        match self.watches.remove(key) {
            Some(mut watch) => {
                let ghost held = watch@;
                if !has_actor(&watch.watchers, watcher) {
                    watch.watchers.push(watcher);
                }
                self.watches.insert(key, watch);
                proof {
                    assert(before[key] == held);
                    assert(self@ =~= before.insert(key, held.with(watcher)));
                }
                false
            },
            None => {
                let mut watchers: Vec<ActorId> = Vec::new();
                watchers.push(watcher);
                let watch = WireWatch { wire_watcher_id: None, watchers };
                self.watches.insert(key, watch);
                proof {
                    assert(watch@ =~= WireWatchModel {
                        wire_watcher_id: None,
                        watchers: seq![watcher],
                    });
                    assert(self@ =~= before.insert(key, watch@));
                }
                true
            },
        }
    }

    /// Records the local watcher registered for the watch; watchers added in between stay.
    pub fn confirm(&mut self, peer: NodeId, target: ActorId, wire_watcher_id: ActorId)
        requires
            old(self).wf(),
        ensures
            final(self).wf(),
            ({
                let key = WireWatchKey { peer, target };
                final(self)@ == if old(self)@.dom().contains(key) {
                    old(self)@.insert(
                        key,
                        WireWatchModel {
                            wire_watcher_id: Some(wire_watcher_id),
                            ..old(self)@[key]
                        },
                    )
                } else {
                    old(self)@
                }
            }),
    {
        let key = WireWatchKey { peer, target };
        let ghost before = self@;
        match self.watches.remove(key) {
            Some(mut watch) => {
                let ghost held = watch@;
                watch.wire_watcher_id = Some(wire_watcher_id);
                self.watches.insert(key, watch);
                proof {
                    assert(before[key] == held);
                    assert(self@ =~= before.insert(
                        key,
                        WireWatchModel { wire_watcher_id: Some(wire_watcher_id), ..held },
                    ));
                }
            },
            None => {
                assert(self@ =~= before);
            },
        }
    }

    /// Removes a remote watcher. With the last one of the target on that peer the watch goes, and
    /// its local watcher, if it has one, is to be deregistered.
    pub fn remove(&mut self, peer: NodeId, target: ActorId, watcher: ActorId) -> (wire_watcher_id:
        Option<ActorId>)
        requires
            old(self).wf(),
        ensures
            final(self).wf(),
            ({
                let key = WireWatchKey { peer, target };
                let left = old(self)@[key].without(watcher);
                if !old(self)@.dom().contains(key) {
                    wire_watcher_id is None && final(self)@ == old(self)@
                } else if left.watchers.len() > 0 {
                    wire_watcher_id is None && final(self)@ == old(self)@.insert(key, left)
                } else {
                    wire_watcher_id == old(self)@[key].wire_watcher_id && final(self)@ == old(
                        self)@.remove(key)
                }
            }),
    {
        let key = WireWatchKey { peer, target };
        let ghost before = self@;
        match self.watches.remove(key) {
            Some(mut watch) => {
                let ghost held = watch@;
                watch.watchers = without_actor(&watch.watchers, watcher);
                assert(before[key] == held);
                if watch.watchers.len() > 0 {
                    self.watches.insert(key, watch);
                    assert(self@ =~= before.insert(key, held.without(watcher)));
                    None
                } else {
                    assert(self@ =~= before.remove(key));
                    watch.wire_watcher_id
                }
            },
            None => {
                assert(self@ =~= before);
                None
            },
        }
    }

    /// Takes a watch with all its watchers out, so each gets its own terminated frame.
    pub fn take(&mut self, peer: NodeId, target: ActorId) -> (watch: Option<WireWatch>)
        requires
            old(self).wf(),
        ensures
            final(self).wf(),
            ({
                let key = WireWatchKey { peer, target };
                &&& final(self)@ == old(self)@.remove(key)
                &&& watch is Some == old(self)@.dom().contains(key)
                &&& watch matches Some(w) ==> w@ == old(self)@[key]
            }),
    {
        let key = WireWatchKey { peer, target };
        let ghost before = self@;
        let watch = self.watches.remove(key);
        assert(self@ =~= before.remove(key));
        watch
    }

    /// Takes the watches of every incarnation the fence covers out, and names the local watchers to
    /// deregister.
    pub fn take_fenced(&mut self, fence: NodeId) -> (registered: Vec<RegisteredWatch>)
        requires
            old(self).wf(),
        ensures
            final(self).wf(),
            final(self)@ == Map::new(
                |k: WireWatchKey| old(self)@.dom().contains(k) && !fence.fences(k.peer),
                |k: WireWatchKey| old(self)@[k],
            ),
            registered@.to_set() == registered_under(old(self)@, fence),
            forall|r: RegisteredWatch| #[trigger]
                registered@.contains(r) == (exists|k: WireWatchKey| #[trigger]
                    old(self)@.dom().contains(k) && fence.fences(k.peer) && k.target == r.target
                        && old(self)@[k].wire_watcher_id == Some(r.wire_watcher_id)),
    {
        let ghost before = self@;
        let ghost s = self.watches@;
        let ghost p = |e: (WireWatchKey, WireWatch)| !fence.fences(e.0.peer);
        let keep = |key: &WireWatchKey, watch: &WireWatch| -> (r: bool)
            ensures
                r == !fence.fences(key.peer),
            { !fence.covers(key.peer) };
        let removed = self.watches.split(keep, Ghost(p));
        assert(self@ =~= Map::new(
            |k: WireWatchKey| before.dom().contains(k) && !fence.fences(k.peer),
            |k: WireWatchKey| before[k],
        ));
        let ghost q = |e: (WireWatchKey, WireWatch)| !p(e);
        let mut registered: Vec<RegisteredWatch> = Vec::new();
        let mut i: usize = 0;
        while i < removed.len()
            invariant
                i <= removed@.len(),
                forall|r: RegisteredWatch| #[trigger]
                    registered@.contains(r) == (exists|j: int|
                        0 <= j < i && is_registered_as(#[trigger] removed@[j], r)),
            decreases removed@.len() - i,
        {
            let ghost held = registered@;
            if let Some(wire_watcher_id) = removed[i].1.wire_watcher_id {
                registered.push(RegisteredWatch { target: removed[i].0.target, wire_watcher_id });
            }
            proof {
                assert forall|r: RegisteredWatch| #[trigger] registered@.contains(r) == (
                exists|j: int| 0 <= j < i + 1 && is_registered_as(#[trigger] removed@[j], r)) by {
                    if held.contains(r) {
                        let k = choose|k: int| 0 <= k < held.len() && held[k] == r;
                        assert(registered@[k] == r);
                        let j = choose|j: int|
                            0 <= j < i && is_registered_as(#[trigger] removed@[j], r);
                        assert(is_registered_as(removed@[j], r));
                    }
                    if is_registered_as(removed@[i as int], r) {
                        assert(registered@[held.len() as int] == r);
                    }
                    if registered@.contains(r) && !held.contains(r) {
                        let k = choose|k: int| 0 <= k < registered@.len() && registered@[k] == r;
                        if k < held.len() {
                            assert(held[k] == r);
                        }
                        assert(is_registered_as(removed@[i as int], r));
                    }
                }
            }
            i = i + 1;
        }
        proof {
            assert forall|r: RegisteredWatch| #[trigger] registered@.contains(r) == (
            exists|k: WireWatchKey| #[trigger]
                before.dom().contains(k) && fence.fences(k.peer) && k.target == r.target
                    && before[k].wire_watcher_id == Some(r.wire_watcher_id)) by {
                if registered@.contains(r) {
                    let j = choose|j: int|
                        0 <= j < removed@.len() && is_registered_as(#[trigger] removed@[j], r);
                    let e = removed@[j];
                    lemma_filter_contains(s, q, e);
                    assert(removed@.contains(e));
                    let m = choose|m: int| 0 <= m < s.len() && s[m] == e;
                    lemma_entry_in_map(s, m);
                    assert(before.dom().contains(e.0));
                }
                if exists|k: WireWatchKey| #[trigger]
                    before.dom().contains(k) && fence.fences(k.peer) && k.target == r.target
                        && before[k].wire_watcher_id == Some(r.wire_watcher_id) {
                    let k = choose|k: WireWatchKey| #[trigger]
                        before.dom().contains(k) && fence.fences(k.peer) && k.target == r.target
                            && before[k].wire_watcher_id == Some(r.wire_watcher_id);
                    let m = crate::table::lemma_map_in_entries(s, k);
                    lemma_filter_contains(s, q, s[m]);
                    assert(s.contains(s[m]));
                    let j = choose|j: int| 0 <= j < removed@.len() && removed@[j] == s[m];
                    assert(is_registered_as(removed@[j], r));
                }
            }
        }
        registered
    }
}

pub open spec fn is_registered_as(e: (WireWatchKey, WireWatch), r: RegisteredWatch) -> bool {
    e.0.target == r.target && e.1.wire_watcher_id == Some(r.wire_watcher_id)
}

/// A peer is attended to by the watches on its actors: it is listed once for all of them.
pub proof fn watched_peers_are_listed_once<H>(entries: Seq<(WatchKey, H)>, peer: NodeId)
    ensures
        watched_peers(entries).no_duplicates(),
        watched_peers(entries).contains(peer) <==> exists|i: int|
            0 <= i < entries.len() && (#[trigger] entries[i]).0.peer == peer,
    decreases entries.len(),
{
    if entries.len() > 0 {
        let fewer = entries.drop_last();
        let last = entries.last().0.peer;
        let before = watched_peers(fewer);
        watched_peers_are_listed_once(fewer, peer);
        watched_peers_are_listed_once(fewer, last);
        crate::seqs::lemma_contains_push(before, last, peer);
        if exists|i: int| 0 <= i < fewer.len() && (#[trigger] fewer[i]).0.peer == peer {
            let i = choose|i: int| 0 <= i < fewer.len() && (#[trigger] fewer[i]).0.peer == peer;
            assert(entries[i].0.peer == peer);
        }
        if last == peer {
            assert(entries[entries.len() - 1].0.peer == peer);
        }
        assert forall|i: int|
            0 <= i < entries.len() && (#[trigger] entries[i]).0.peer == peer && i < fewer.len()
            implies fewer[i].0.peer == peer by {}
    }
}

/// What is asserted to a peer are the watches on its actors, each by its target and its watcher, and
/// no others.
pub proof fn watches_are_told_by_pair<H>(
    entries: Seq<(WatchKey, H)>,
    peer: NodeId,
    target: ActorId,
    watcher: ActorId,
)
    ensures
        watch_pairs(entries, peer).contains((target, watcher)) <==> exists|i: int|
            0 <= i < entries.len() && (#[trigger] entries[i]).0 == (WatchKey {
                peer,
                target,
                watcher,
            }),
{
    let own = entries.filter(is_of_peer(peer));
    let pairs = watch_pairs(entries, peer);
    if pairs.contains((target, watcher)) {
        let j = choose|j: int| 0 <= j < pairs.len() && pairs[j] == (target, watcher);
        assert(own.contains(own[j]));
        crate::seqs::lemma_filter_contains(entries, is_of_peer(peer), own[j]);
        let i = choose|i: int| 0 <= i < entries.len() && entries[i] == own[j];
        assert(entries[i].0 == (WatchKey { peer, target, watcher }));
    }
    if exists|i: int|
        0 <= i < entries.len() && (#[trigger] entries[i]).0 == (WatchKey {
            peer,
            target,
            watcher,
        }) {
        let i = choose|i: int|
            0 <= i < entries.len() && (#[trigger] entries[i]).0 == (WatchKey {
                peer,
                target,
                watcher,
            });
        crate::seqs::lemma_filter_contains(entries, is_of_peer(peer), entries[i]);
        let j = choose|j: int| 0 <= j < own.len() && own[j] == entries[i];
        assert(pairs[j] == (target, watcher));
    }
}

/// Which watches an event ends: the end of an actor those on it, an address given up those at it, and
/// a death those on its address up to the incarnation which died.
pub proof fn an_event_ends_its_watches<H>(
    entry: (WatchKey, H),
    peer: NodeId,
    target: ActorId,
    addr: SocketAddr,
)
    ensures
        is_target(peer, target)(entry) <==> entry.0.peer == peer && entry.0.target == target,
        is_at_addr(addr)(entry) <==> entry.0.peer.addr == addr,
        is_fenced(peer)(entry) <==> entry.0.peer.addr == peer.addr && entry.0.peer.incarnation.0
            <= peer.incarnation.0,
{
}

} // verus!
