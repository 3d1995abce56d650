//! Hosting entities: actors identified by a key, spawned on the first message for that key and, if
//! configured, passivated once they have not been messaged for a while. Durations and instants are
//! in nanoseconds.

use vstd::prelude::*;

use crate::book::{Book, Identified};
use crate::ids::ActorId;
use crate::seqs::{age, elapsed};
use crate::table::Table;

verus! {

/// A message for the entity under the given key.
#[derive(Debug, Clone, Copy, PartialEq, Eq)]
pub struct HostEnvelope<K, M> {
    /// Which entity.
    pub key: K,
    /// What it is told.
    pub message: M,
}

/// The settings of a [Host].
#[derive(Debug, Clone, Copy, PartialEq, Eq, Structural)]
pub struct HostConfig {
    pub idle_timeout: Option<u128>,
    pub buffer: usize,
}

/// A [HostConfig] which cannot be used.
#[derive(Debug, Clone, Copy, PartialEq, Eq, Structural)]
pub enum InvalidHostConfig {
    /// The idle timeout was zero.
    ZeroIdleTimeout,
}

impl HostConfig {
    /// Keeps every entity alive, buffering at most `buffer` messages per entity while it stops.
    pub fn new(buffer: usize) -> (config: Self)
        ensures
            config == (HostConfig { idle_timeout: None, buffer }),
    {
        HostConfig { idle_timeout: None, buffer }
    }

    /// Passivates an entity which has not been messaged for so long. Fails for zero, which would
    /// have the host sweeping without pause.
    pub fn with_idle_timeout(self, idle_timeout: u128) -> (r: Result<Self, InvalidHostConfig>)
        ensures
            r == if idle_timeout == 0 {
                Err::<Self, InvalidHostConfig>(InvalidHostConfig::ZeroIdleTimeout)
            } else {
                Ok::<Self, InvalidHostConfig>(
                    HostConfig { idle_timeout: Some(idle_timeout), ..self },
                )
            },
    {
        if idle_timeout == 0 {
            return Err(InvalidHostConfig::ZeroIdleTimeout);
        }
        Ok(HostConfig { idle_timeout: Some(idle_timeout), ..self })
    }
}

impl Default for HostConfig {
    fn default() -> (config: Self)
        ensures
            config == (HostConfig { idle_timeout: None, buffer: 64 }),
    {
        HostConfig::new(64)
    }
}

/// One entity. A stopping one buffers what arrives for its next incarnation.
#[derive(Debug)]
pub enum Entry<M> {
    Live { actor: ActorId, last_message: u128 },
    Stopping { actor: ActorId, buffered: Vec<M> },
}

#[verifier::ext_equal]
pub ghost enum EntryModel<M> {
    Live { actor: ActorId, last_message: u128 },
    Stopping { actor: ActorId, buffered: Seq<M> },
}

impl<M> View for Entry<M> {
    type V = EntryModel<M>;

    open spec fn view(&self) -> EntryModel<M> {
        match *self {
            Entry::Live { actor, last_message } => EntryModel::Live { actor, last_message },
            Entry::Stopping { actor, buffered } => EntryModel::Stopping {
                actor,
                buffered: buffered@,
            },
        }
    }
}

impl<M> EntryModel<M> {
    pub open spec fn actor(self) -> ActorId {
        match self {
            EntryModel::Live { actor, .. } => actor,
            EntryModel::Stopping { actor, .. } => actor,
        }
    }

    pub open spec fn is_idle(self, timeout: u128, at: u128) -> bool {
        self matches EntryModel::Live { last_message, .. } && age(at, last_message) >= timeout
    }
}

/// The entities of a host, and the actor whose end tells it to look for idle ones.
#[derive(Debug)]
pub struct Host<K, M> {
    pub(crate) config: HostConfig,
    pub(crate) entries: Book<K, Entry<M>>,
    pub(crate) keys: Table<ActorId, K>,
    pub(crate) ticker: Option<ActorId>,
}

/// A [Host] by value, its keys by what identifies them.
#[verifier::ext_equal]
#[verifier::reject_recursive_types(K)]
pub ghost struct HostModel<K, M> {
    pub config: HostConfig,
    pub entries: Map<K, EntryModel<M>>,
    pub keys: Map<ActorId, K>,
    pub ticker: Option<ActorId>,
}

pub open spec fn entry_models<K: Identified, M>(entries: Book<K, Entry<M>>) -> Map<
    K::Id,
    EntryModel<M>,
> {
    entries.map().map_values(|e: Entry<M>| e@)
}

impl<K: Identified, M> View for Host<K, M> {
    type V = HostModel<K::Id, M>;

    open(crate) spec fn view(&self) -> HostModel<K::Id, M> {
        HostModel {
            config: self.config,
            entries: entry_models(self.entries),
            keys: self.keys.map().map_values(|key: K| key.ident()),
            ticker: self.ticker,
        }
    }
}

/// What is done with a message.
#[derive(Debug)]
pub enum Routed<K, M> {
    /// Tell the entity.
    Tell(ActorId, M),
    /// It waits for the entity's next incarnation.
    Buffered,
    /// A dead letter: the buffer of the stopping entity is full.
    Dropped(ActorId, M),
    /// Spawn an entity for the key, report it to [Host::spawned] and tell it.
    Spawn(K, M),
}

/// What is done about a terminated actor.
#[derive(Debug)]
pub enum Ended<K, M> {
    /// It is none of the host's, or nobody waits for its next incarnation.
    Nothing,
    /// Passivate what is idle and start another ticker.
    Tick,
    /// Spawn the next incarnation for the key, report it to [Host::spawned] and tell it these, in
    /// order and whatever its capacity.
    Respawn(K, Vec<M>),
}

/// A decision on a message, its key by what identifies it.
pub open spec fn routed_view<K: Identified, M>(routed: Routed<K, M>) -> Routed<K::Id, M> {
    match routed {
        Routed::Tell(actor, message) => Routed::Tell(actor, message),
        Routed::Buffered => Routed::Buffered,
        Routed::Dropped(actor, message) => Routed::Dropped(actor, message),
        Routed::Spawn(key, message) => Routed::Spawn(key.ident(), message),
    }
}

/// Entities, their keys by what identifies them.
pub open spec fn entity_views<K: Identified>(entities: Seq<(K, ActorId)>) -> Seq<(K::Id, ActorId)> {
    entities.map_values(|e: (K, ActorId)| (e.0.ident(), e.1))
}

impl<K, M> HostModel<K, M> {
    /// Every entity is known by its actor and by its key, hence there is one entity per key.
    pub open spec fn wf(self) -> bool {
        &&& forall|k: K| #[trigger]
            self.entries.dom().contains(k) ==> self.keys.dom().contains(self.entries[k].actor())
                && self.keys[self.entries[k].actor()] == k
        &&& forall|a: ActorId| #[trigger]
            self.keys.dom().contains(a) ==> self.entries.dom().contains(self.keys[a])
                && self.entries[self.keys[a]].actor() == a
        &&& forall|k: K| #[trigger]
            self.entries.dom().contains(k) ==> (self.entries[k] matches EntryModel::Stopping {
                buffered,
                ..
            } ==> buffered.len() <= self.config.buffer)
    }

    /// A message told to a live entity, kept for the next incarnation of a stopping one as far as
    /// the buffer goes, or the reason to spawn one.
    pub open spec fn routing(self, key: K, message: M, at: u128) -> (HostModel<K, M>, Routed<K, M>) {
        if !self.entries.dom().contains(key) {
            (self, Routed::Spawn(key, message))
        } else {
            match self.entries[key] {
                EntryModel::Live { actor, .. } => (
                    self.with_entry(key, EntryModel::Live { actor, last_message: at }),
                    Routed::Tell(actor, message),
                ),
                EntryModel::Stopping { actor, buffered } => if buffered.len() < self.config.buffer {
                    (
                        self.with_entry(
                            key,
                            EntryModel::Stopping { actor, buffered: buffered.push(message) },
                        ),
                        Routed::Buffered,
                    )
                } else {
                    (self, Routed::Dropped(actor, message))
                },
            }
        }
    }

    pub open spec fn with_entry(self, key: K, entry: EntryModel<M>) -> HostModel<K, M> {
        HostModel { entries: self.entries.insert(key, entry), ..self }
    }

    /// A fresh entity under a key.
    pub open spec fn with_entity(self, key: K, actor: ActorId, at: u128) -> HostModel<K, M> {
        HostModel {
            entries: self.entries.insert(key, EntryModel::Live { actor, last_message: at }),
            keys: self.keys.insert(actor, key),
            ..self
        }
    }

    pub open spec fn without_entity(self, key: K, actor: ActorId) -> HostModel<K, M> {
        HostModel {
            entries: self.entries.remove(key),
            keys: self.keys.remove(actor),
            ..self
        }
    }

    /// The live entity under a key stops.
    pub open spec fn stopping(self, key: K, actor: ActorId) -> HostModel<K, M> {
        if self.entries.dom().contains(key) && (self.entries[key] matches EntryModel::Live {
            actor: live,
            ..
        } && live == actor) {
            self.with_entry(key, EntryModel::Stopping { actor, buffered: Seq::empty() })
        } else {
            self
        }
    }
}

impl<K: Identified, M> Host<K, M> {
    pub open(crate) spec fn wf(&self) -> bool {
        &&& self.entries.wf()
        &&& self.keys.wf()
        &&& self@.wf()
    }

    /// A host without entities.
    pub fn new(config: HostConfig) -> (host: Self)
        ensures
            host.wf(),
            host@ == (HostModel::<K::Id, M> {
                config,
                entries: Map::empty(),
                keys: Map::empty(),
                ticker: None,
            }),
    {
        let host: Host<K, M> = Host {
            config,
            entries: Book::new(),
            keys: Table::new(),
            ticker: None,
        };
        assert(host@.entries =~= Map::<K::Id, EntryModel<M>>::empty());
        assert(host@.keys =~= Map::<ActorId, K::Id>::empty());
        host
    }

    /// Whether the host knows an entity under the key or the actor as one.
    pub fn is_known(&self, key: &K, actor: ActorId) -> (r: bool)
        requires
            self.wf(),
        ensures
            r == (self@.entries.dom().contains(key.ident()) || self@.keys.dom().contains(actor)),
    {
        self.entries.contains_key(key) || self.keys.contains_key(actor)
    }

    fn put_entry(&mut self, key: &K, entry: Entry<M>)
        requires
            old(self).entries.wf(),
            old(self).keys.wf(),
        ensures
            final(self).entries.wf(),
            final(self).keys == old(self).keys,
            final(self)@ == old(self)@.with_entry(key.ident(), entry@),
    {
        let ghost before = *self;
        self.entries.put(key, entry);
        proof {
            let after = before@.entries.insert(key.ident(), entry@);
            assert forall|id: K::Id|
                self@.entries.dom().contains(id) == after.dom().contains(id) && (after.dom().contains(
                    id,
                ) ==> self@.entries[id] == after[id]) by {
                if id != key.ident() {
                    assert(self.entries.spec_held(id) == before.entries.spec_held(id));
                }
            }
            assert(self@.entries =~= after);
        }
    }

    fn take_entry(&mut self, key: &K) -> (entry: Option<Entry<M>>)
        requires
            old(self).entries.wf(),
            old(self).keys.wf(),
        ensures
            final(self).entries.wf(),
            final(self).keys == old(self).keys,
            final(self)@ == (HostModel {
                entries: old(self)@.entries.remove(key.ident()),
                ..old(self)@
            }),
            entry is Some == old(self)@.entries.dom().contains(key.ident()),
            entry matches Some(e) ==> e@ == old(self)@.entries[key.ident()],
    {
        let ghost before = *self;
        let entry = self.entries.take(key);
        proof {
            let after = before@.entries.remove(key.ident());
            assert forall|id: K::Id|
                self@.entries.dom().contains(id) == after.dom().contains(id) && (after.dom().contains(
                    id,
                ) ==> self@.entries[id] == after[id]) by {
                if id != key.ident() {
                    assert(self.entries.spec_held(id) == before.entries.spec_held(id));
                }
            }
            assert(self@.entries =~= after);
        }
        entry
    }

    /// Decides on a message for the entity under a key.
    pub fn route(&mut self, key: K, message: M, at: u128) -> (routed: Routed<K, M>)
        requires
            old(self).wf(),
        ensures
            final(self).wf(),
            final(self)@ == old(self)@.routing(key.ident(), message, at).0,
            routed_view(routed) == old(self)@.routing(key.ident(), message, at).1,
    {
        let ghost before = self@;
        let ghost id = key.ident();
        match self.take_entry(&key) {
            None => {
                assert(before.entries.remove(id) =~= before.entries);
                Routed::Spawn(key, message)
            },
            Some(Entry::Live { actor, .. }) => {
                self.put_entry(&key, Entry::Live { actor, last_message: at });
                proof {
                    let entry = EntryModel::<M>::Live { actor, last_message: at };
                    assert(before.entries.remove(id).insert(id, entry) =~= before.entries.insert(
                        id,
                        entry,
                    ));
                    assert(self@ =~= before.with_entry(id, entry));
                }
                Routed::Tell(actor, message)
            },
            Some(Entry::Stopping { actor, buffered }) => {
                let mut waiting = buffered;
                if waiting.len() < self.config.buffer {
                    waiting.push(message);
                    self.put_entry(&key, Entry::Stopping { actor, buffered: waiting });
                    proof {
                        let entry = EntryModel::<M>::Stopping { actor, buffered: waiting@ };
                        assert(before.entries.remove(id).insert(id, entry)
                            =~= before.entries.insert(id, entry));
                        assert(self@ =~= before.with_entry(id, entry));
                    }
                    Routed::Buffered
                } else {
                    self.put_entry(&key, Entry::Stopping { actor, buffered: waiting });
                    proof {
                        let entry = EntryModel::<M>::Stopping { actor, buffered: waiting@ };
                        assert(before.entries.remove(id).insert(id, entry) =~= before.entries);
                        assert(self@ =~= before);
                    }
                    Routed::Dropped(actor, message)
                }
            },
        }
    }

    /// Records the entity spawned for a key which has none. An actor which the host knows already
    /// cannot be spawned again.
    pub fn spawned(&mut self, key: K, actor: ActorId, at: u128)
        requires
            old(self).wf(),
            !old(self)@.entries.dom().contains(key.ident()),
            !old(self)@.keys.dom().contains(actor),
        ensures
            final(self).wf(),
            final(self)@ == old(self)@.with_entity(key.ident(), actor, at),
    {
        let ghost before = self@;
        let ghost id = key.ident();
        self.put_entry(&key, Entry::Live { actor, last_message: at });
        self.keys.insert(actor, key);
        proof {
            let after = self@;
            assert(after.keys =~= before.keys.insert(actor, id));
            assert(after =~= before.with_entity(id, actor, at));
            assert forall|k: K::Id| #[trigger] after.entries.dom().contains(k) implies (
            after.keys.dom().contains(after.entries[k].actor())
                && after.keys[after.entries[k].actor()] == k) by {
                if k != id {
                    assert(before.entries.dom().contains(k));
                }
            }
            assert forall|a: ActorId| #[trigger] after.keys.dom().contains(a) implies (
            after.entries.dom().contains(after.keys[a]) && after.entries[after.keys[a]].actor()
                == a) by {
                if a != actor {
                    assert(before.keys.dom().contains(a));
                }
            }
        }
    }

    /// Decides on the end of an actor the host watches.
    pub fn terminated(&mut self, actor: ActorId) -> (ended: Ended<K, M>)
        requires
            old(self).wf(),
        ensures
            final(self).wf(),
            ({
                let before = old(self)@;
                if before.ticker == Some(actor) {
                    ended is Tick && final(self)@ == before
                } else if !before.keys.dom().contains(actor) {
                    ended is Nothing && final(self)@ == before
                } else {
                    let key = before.keys[actor];
                    &&& final(self)@ == before.without_entity(key, actor)
                    &&& match before.entries[key] {
                        EntryModel::Stopping { buffered, .. } => if buffered.len() > 0 {
                            ended matches Ended::Respawn(k, messages) && k.ident() == key
                                && messages@ == buffered
                        } else {
                            ended is Nothing
                        },
                        EntryModel::Live { .. } => ended is Nothing,
                    }
                }
            }),
    {
        let ghost before = self@;
        if let Some(ticker) = self.ticker {
            if ticker == actor {
                return Ended::Tick;
            }
        }
        match self.keys.remove(actor) {
            None => {
                assert(self@.keys =~= before.keys);
                assert(self@ =~= before);
                Ended::Nothing
            },
            Some(key) => {
                let ghost id = key.ident();
                assert(self@.keys =~= before.keys.remove(actor));
                let entry = self.take_entry(&key);
                assert(self@ =~= before.without_entity(id, actor));
                proof {
                    let after = self@;
                    assert forall|k: K::Id| #[trigger] after.entries.dom().contains(k) implies (
                    after.keys.dom().contains(after.entries[k].actor())
                        && after.keys[after.entries[k].actor()] == k) by {
                        assert(before.entries.dom().contains(k));
                    }
                    assert forall|a: ActorId| #[trigger] after.keys.dom().contains(a) implies (
                    after.entries.dom().contains(after.keys[a])
                        && after.entries[after.keys[a]].actor() == a) by {
                        assert(before.keys.dom().contains(a));
                        assert(before.keys.dom().contains(actor));
                    }
                }
                match entry {
                    Some(Entry::Stopping { buffered, .. }) => {
                        if buffered.len() == 0 {
                            Ended::Nothing
                        } else {
                            Ended::Respawn(key, buffered)
                        }
                    },
                    _ => Ended::Nothing,
                }
            },
        }
    }

    /// The live entities which have not been messaged for the idle timeout: those to be asked to
    /// stop. None without such a timeout.
    pub fn idle(&self, at: u128) -> (idle: Vec<(K, ActorId)>)
        requires
            self.wf(),
        ensures
            entity_views(idle@).no_duplicates(),
            self@.config.idle_timeout is None ==> idle@.len() == 0,
            self@.config.idle_timeout matches Some(timeout) ==> forall|k: K::Id, a: ActorId|
                #[trigger]
                entity_views(idle@).contains((k, a)) == (self@.entries.dom().contains(k)
                    && self@.entries[k].is_idle(timeout, at) && self@.entries[k].actor() == a),
    {
        let mut idle: Vec<(K, ActorId)> = Vec::new();
        assert(entity_views(idle@) =~= Seq::empty());
        let timeout: u128 = match self.config.idle_timeout {
            Some(timeout) => timeout,
            None => return idle,
        };
        let ghost s = self.entries.entries@;
        let mut i: usize = 0;
        while i < self.entries.entries.len()
            invariant
                self.wf(),
                s == self.entries.entries@,
                i <= s.len(),
                entity_views(idle@).no_duplicates(),
                forall|k: K::Id, a: ActorId| #[trigger]
                    entity_views(idle@).contains((k, a)) == (exists|j: int|
                        0 <= j < i && (#[trigger] s[j]).0.ident() == k && s[j].1@.is_idle(
                            timeout,
                            at,
                        ) && s[j].1@.actor() == a),
            decreases s.len() - i,
        {
            let ghost before = entity_views(idle@);
            let ghost id = s[i as int].0.ident();
            let found = match &self.entries.entries[i].1 {
                Entry::Live { actor, last_message } => if elapsed(at, *last_message) >= timeout {
                    Some(*actor)
                } else {
                    None
                },
                Entry::Stopping { .. } => None,
            };
            if let Some(actor) = found {
                proof {
                    if before.contains((id, actor)) {
                        let j = choose|j: int|
                            0 <= j < i && (#[trigger] s[j]).0.ident() == id && s[j].1@.is_idle(
                                timeout,
                                at,
                            ) && s[j].1@.actor() == actor;
                        assert(s[j].0.ident() != s[i as int].0.ident());
                    }
                }
                idle.push((self.entries.entries[i].0.copied(), actor));
                assert(entity_views(idle@) =~= before.push((id, actor)));
            }
            proof {
                let now = entity_views(idle@);
                assert forall|k: K::Id, a: ActorId| #[trigger] now.contains((k, a)) == (exists|
                    j: int,
                |
                    0 <= j < i + 1 && (#[trigger] s[j]).0.ident() == k && s[j].1@.is_idle(
                        timeout,
                        at,
                    ) && s[j].1@.actor() == a) by {
                    if before.contains((k, a)) {
                        let n = choose|n: int| 0 <= n < before.len() && before[n] == (k, a);
                        assert(now[n] == (k, a));
                        let j = choose|j: int|
                            0 <= j < i && (#[trigger] s[j]).0.ident() == k && s[j].1@.is_idle(
                                timeout,
                                at,
                            ) && s[j].1@.actor() == a;
                        assert(s[j].0.ident() == k);
                    }
                    if id == k && s[i as int].1@.is_idle(timeout, at) && s[i as int].1@.actor()
                        == a {
                        assert(now[before.len() as int] == (k, a));
                    }
                    if now.contains((k, a)) && !before.contains((k, a)) {
                        let n = choose|n: int| 0 <= n < now.len() && now[n] == (k, a);
                        if n < before.len() {
                            assert(before[n] == (k, a));
                        }
                        assert(s[i as int].0.ident() == k);
                    }
                }
            }
            i = i + 1;
        }
        proof {
            let all = entity_views(idle@);
            assert forall|k: K::Id, a: ActorId| #[trigger] all.contains((k, a)) == (
            self@.entries.dom().contains(k) && self@.entries[k].is_idle(timeout, at)
                && self@.entries[k].actor() == a) by {
                if all.contains((k, a)) {
                    let j = choose|j: int|
                        0 <= j < s.len() && (#[trigger] s[j]).0.ident() == k && s[j].1@.is_idle(
                            timeout,
                            at,
                        ) && s[j].1@.actor() == a;
                    self.entries.lemma_held(j);
                }
                if self@.entries.dom().contains(k) && self@.entries[k].is_idle(timeout, at)
                    && self@.entries[k].actor() == a {
                    let j = choose|j: int| crate::book::is_entry(s, k, j);
                    self.entries.lemma_held(j);
                    assert(s[j].0.ident() == k);
                }
            }
        }
        idle
    }

    /// Records that an entity has been asked to stop; what arrives for it from here on waits for its
    /// next incarnation.
    pub fn passivated(&mut self, key: &K, actor: ActorId)
        requires
            old(self).wf(),
        ensures
            final(self).wf(),
            final(self)@ == old(self)@.stopping(key.ident(), actor),
    {
        let ghost before = self@;
        let live = match self.entries.get(key) {
            Some(Entry::Live { actor: live, .. }) => *live == actor,
            _ => false,
        };
        if live {
            self.put_entry(key, Entry::Stopping { actor, buffered: Vec::new() });
            assert(self@ =~= before.stopping(key.ident(), actor));
        }
    }

    /// Records the ticker whose end tells the host to look for idle entities.
    pub fn tick_later(&mut self, ticker: Option<ActorId>)
        requires
            old(self).wf(),
        ensures
            final(self).wf(),
            final(self)@ == (HostModel { ticker, ..old(self)@ }),
    {
        self.ticker = ticker;
    }
}

/// The host after a sequence of messages for a key.
pub open spec fn routing_all<K, M>(host: HostModel<K, M>, key: K, messages: Seq<M>, at: u128) -> HostModel<
    K,
    M,
>
    decreases messages.len(),
{
    if messages.len() == 0 {
        host
    } else {
        routing_all(host, key, messages.drop_last(), at).routing(key, messages.last(), at).0
    }
}

/// A passivation is invisible to senders but in timing: what arrives while an entity stops waits, in
/// order, for its next incarnation, as long as it fits the buffer.
pub proof fn nothing_is_lost_to_a_passivation<K, M>(
    host: HostModel<K, M>,
    key: K,
    actor: ActorId,
    messages: Seq<M>,
    at: u128,
)
    requires
        host.entries.dom().contains(key),
        host.entries[key] matches EntryModel::Live { actor: live, .. } && live == actor,
        messages.len() <= host.config.buffer,
    ensures
        routing_all(host.stopping(key, actor), key, messages, at) == host.with_entry(
            key,
            EntryModel::Stopping { actor, buffered: messages },
        ),
    decreases messages.len(),
{
    let after = routing_all(host.stopping(key, actor), key, messages, at);
    if messages.len() > 0 {
        let sent = messages.drop_last();
        nothing_is_lost_to_a_passivation(host, key, actor, sent, at);
        assert(sent.push(messages.last()) =~= messages);
    } else {
        assert(messages =~= Seq::<M>::empty());
    }
    assert(after =~= host.with_entry(key, EntryModel::Stopping { actor, buffered: messages }));
}

/// Where a message goes depends on its entity alone: a live one is told it, a stopping one finds it
/// behind what waits already, as far as the buffer goes, and a missing one is spawned for it. No
/// other entity is touched.
pub proof fn a_message_goes_to_its_entity<K, M>(
    host: HostModel<K, M>,
    key: K,
    message: M,
    at: u128,
)
    ensures
        ({
            let (after, routed) = host.routing(key, message, at);
            let waits = host.entries[key]->buffered;
            let present = host.entries.dom().contains(key);
            &&& after.keys == host.keys && after.config == host.config && after.ticker
                == host.ticker
            &&& after.entries.dom() == host.entries.dom()
            &&& forall|other: K| #[trigger]
                host.entries.dom().contains(other) && other != key ==> after.entries[other]
                    == host.entries[other]
            &&& !present ==> routed == Routed::Spawn(key, message)
            &&& present && host.entries[key] is Live ==> {
                &&& routed == Routed::<K, M>::Tell(host.entries[key]->Live_actor, message)
                &&& after.entries[key] == (EntryModel::<M>::Live {
                    actor: host.entries[key]->Live_actor,
                    last_message: at,
                })
            }
            &&& present && host.entries[key] is Stopping && waits.len() < host.config.buffer ==> {
                &&& routed is Buffered
                &&& after.entries[key] == (EntryModel::<M>::Stopping {
                    actor: host.entries[key]->Stopping_actor,
                    buffered: waits + seq![message],
                })
            }
            &&& present && host.entries[key] is Stopping && waits.len() >= host.config.buffer ==> {
                &&& routed == Routed::<K, M>::Dropped(host.entries[key]->Stopping_actor, message)
                &&& after.entries[key] == host.entries[key]
            }
        }),
{
    if host.entries.dom().contains(key) && host.entries[key] is Stopping {
        let waits = host.entries[key]->buffered;
        assert(waits.push(message) =~= waits + seq![message]);
    }
    let (after, routed) = host.routing(key, message, at);
    assert(after.entries.dom() =~= host.entries.dom());
}

/// An entity is idle once its last message lies the timeout back, and never while it stops.
pub proof fn only_a_quiet_entity_is_idle<M>(entry: EntryModel<M>, timeout: u128, at: u128)
    ensures
        entry matches EntryModel::Live { last_message, .. } ==> (entry.is_idle(timeout, at) <==> (
        timeout == 0 || last_message + timeout <= at)),
        entry is Stopping ==> !entry.is_idle(timeout, at),
{
}

/// An entity asked to stop buffers from then on, under the actor which is stopping; one whose actor
/// has changed since is left alone.
pub proof fn a_passivation_stops_one_entity<K, M>(host: HostModel<K, M>, key: K, actor: ActorId)
    ensures
        ({
            let after = host.stopping(key, actor);
            let stops = host.entries.dom().contains(key) && host.entries[key] is Live
                && host.entries[key]->Live_actor == actor;
            &&& after.keys == host.keys && after.config == host.config && after.ticker
                == host.ticker
            &&& after.entries.dom() == host.entries.dom()
            &&& forall|other: K| #[trigger]
                host.entries.dom().contains(other) && (other != key || !stops)
                    ==> after.entries[other] == host.entries[other]
            &&& stops ==> after.entries[key] == (EntryModel::<M>::Stopping {
                actor,
                buffered: Seq::empty(),
            })
        }),
{
    assert(host.stopping(key, actor).entries.dom() =~= host.entries.dom());
}

/// A spawned entity is live under its key and found by its actor; an ended one is neither.
pub proof fn an_entity_comes_and_goes<K, M>(
    host: HostModel<K, M>,
    key: K,
    actor: ActorId,
    at: u128,
)
    requires
        host.wf(),
        !host.entries.dom().contains(key),
        !host.keys.dom().contains(actor),
    ensures
        ({
            let spawned = host.with_entity(key, actor, at);
            &&& spawned.wf()
            &&& spawned.entries[key] == (EntryModel::<M>::Live { actor, last_message: at })
            &&& spawned.keys[actor] == key
            &&& spawned.entries.remove(key) == host.entries
            &&& spawned.keys.remove(actor) == host.keys
            &&& spawned.without_entity(key, actor) == host
        }),
{
    let spawned = host.with_entity(key, actor, at);
    assert(spawned.entries.remove(key) =~= host.entries);
    assert(spawned.keys.remove(actor) =~= host.keys);
    assert forall|k: K| #[trigger] spawned.entries.dom().contains(k) implies
        spawned.keys.dom().contains(spawned.entries[k].actor())
        && spawned.keys[spawned.entries[k].actor()] == k by {
        if k != key {
            assert(host.entries.dom().contains(k));
        }
    }
    assert forall|a: ActorId| #[trigger] spawned.keys.dom().contains(a) implies
        spawned.entries.dom().contains(spawned.keys[a])
        && spawned.entries[spawned.keys[a]].actor() == a by {
        if a != actor {
            assert(host.keys.dom().contains(a));
        }
    }
}

/// The end of an entity frees its key. What waited for it, if anything did, comes back in order for
/// the key's next incarnation; the end of any other actor changes nothing.
pub proof fn an_ended_entity_hands_back_what_waits<K: Identified, M>(
    host: &mut Host<K, M>,
    actor: ActorId,
    ended: Ended<K, M>,
)
    requires
        call_ensures(Host::<K, M>::terminated, (host, actor), ended),
    ensures
        ({
            let before = old(host)@;
            let after = final(host)@;
            let ticks = before.ticker == Some(actor);
            let ours = !ticks && before.keys.dom().contains(actor);
            let key = before.keys[actor];
            let entry = before.entries[key];
            let waits = entry is Stopping && entry->buffered.len() > 0;
            &&& ended is Tick <==> ticks
            &&& !ours ==> after == before
            &&& ours ==> after.entries == before.entries.remove(key) && after.keys
                == before.keys.remove(actor) && after.config == before.config && after.ticker
                == before.ticker
            &&& ended is Respawn <==> ours && waits
            &&& ended matches Ended::Respawn(k, messages) ==> k.ident() == key && messages@
                == entry->buffered
        }),
{
}

/// The idle entities are exactly the live ones whose last message lies the timeout back, and nobody
/// is idle without a timeout.
pub proof fn the_quiet_are_idle<K: Identified, M>(
    host: &Host<K, M>,
    at: u128,
    idle: Vec<(K, ActorId)>,
    key: K::Id,
    actor: ActorId,
)
    requires
        call_ensures(Host::<K, M>::idle, (host, at), idle),
    ensures
        entity_views(idle@).no_duplicates(),
        host@.config.idle_timeout is None ==> idle@.len() == 0,
        host@.config.idle_timeout matches Some(timeout) ==> (entity_views(idle@).contains(
            (key, actor),
        ) <==> host@.entries.dom().contains(key) && (host@.entries[key] matches EntryModel::Live {
            actor: live,
            last_message,
        } && live == actor && (timeout == 0 || last_message + timeout <= at))),
{
}

} // verus!
