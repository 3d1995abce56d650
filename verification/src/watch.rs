//! Death watch: who is to be told once an actor terminates.

use vstd::prelude::*;

use crate::ids::ActorId;
use crate::table::{distinct, has_key, key_index, lemma_put, put, without, Table};

verus! {

/// The actor has terminated.
#[derive(Debug, Clone, Copy, PartialEq, Eq, Structural)]
pub struct ActorTerminated;

/// One who is told, and the handler which tells it.
#[derive(Debug)]
pub struct Watcher<H> {
    pub watcher_id: ActorId,
    pub handler: H,
}

impl<H> Watcher<H> {
    pub fn new(watcher_id: ActorId, handler: H) -> (watcher: Self)
        ensures
            watcher == (Watcher { watcher_id, handler }),
    {
        Watcher { watcher_id, handler }
    }

    pub fn watcher_id(&self) -> (id: ActorId)
        ensures
            id == self.watcher_id,
    {
        self.watcher_id
    }
}

/// The watchers of one actor, none anymore once registration has been closed.
#[derive(Debug)]
pub struct WatcherRegistry<H> {
    pub(crate) watchers: Option<Table<ActorId, H>>,
}

pub open spec fn watchers_of<H>(entries: Seq<(ActorId, H)>) -> Seq<Watcher<H>> {
    entries.map_values(|e: (ActorId, H)| Watcher { watcher_id: e.0, handler: e.1 })
}

/// The watcher added, unless one of its identity is there.
pub open spec fn with_watcher<H>(entries: Seq<(ActorId, H)>, watcher: Watcher<H>) -> Seq<
    (ActorId, H),
> {
    if has_key(entries, watcher.watcher_id) {
        entries
    } else {
        entries.push((watcher.watcher_id, watcher.handler))
    }
}

impl<H> View for WatcherRegistry<H> {
    type V = Option<Seq<(ActorId, H)>>;

    open(crate) spec fn view(&self) -> Option<Seq<(ActorId, H)>> {
        match self.watchers {
            Some(watchers) => Some(watchers@),
            None => None,
        }
    }
}

/// Turns entries into watchers, one for one.
pub fn into_watchers<H>(entries: Vec<(ActorId, H)>) -> (watchers: Vec<Watcher<H>>)
    ensures
        watchers@ == watchers_of(entries@),
{
    let ghost all = entries@;
    let mut rest = entries;
    let mut watchers: Vec<Watcher<H>> = Vec::new();
    assert(all.skip(0) =~= all);
    while rest.len() > 0
        invariant
            watchers@.len() + rest@.len() == all.len(),
            rest@ == all.skip(watchers@.len() as int),
            watchers@ =~= watchers_of(all).take(watchers@.len() as int),
        decreases rest@.len(),
    {
        let ghost at = watchers@.len() as int;
        assert(rest@[0] == all[at]);
        let (watcher_id, handler) = rest.remove(0);
        assert(rest@ =~= all.skip(at + 1));
        watchers.push(Watcher { watcher_id, handler });
    }
    assert(watchers_of(all).take(all.len() as int) =~= watchers_of(all));
    watchers
}

impl<H> WatcherRegistry<H> {
    pub open(crate) spec fn wf(&self) -> bool {
        self.watchers matches Some(watchers) ==> watchers.wf()
    }

    /// An open registry without watchers.
    pub fn new() -> (registry: Self)
        ensures
            registry.wf(),
            registry@ == Some(Seq::<(ActorId, H)>::empty()),
    {
        WatcherRegistry { watchers: Some(Table::new()) }
    }

    /// Registers a watcher, once per identity: a terminated signal only names the terminated actor,
    /// hence a second one would carry nothing. Fails once registration has been closed.
    pub fn add(&mut self, watcher: Watcher<H>) -> (r: Result<(), ActorTerminated>)
        requires
            old(self).wf(),
        ensures
            final(self).wf(),
            r is Ok == old(self)@ is Some,
            old(self)@ is None ==> final(self)@ == old(self)@,
            old(self)@ matches Some(watchers) ==> final(self)@ == Some(
                with_watcher(watchers, watcher),
            ),
    {
        match &mut self.watchers {
            Some(watchers) => {
                if !watchers.contains_key(watcher.watcher_id) {
                    watchers.insert(watcher.watcher_id, watcher.handler);
                }
                Ok(())
            },
            None => Err(ActorTerminated),
        }
    }

    /// Deregisters a watcher; nothing happens once registration has been closed.
    pub fn remove(&mut self, watcher_id: ActorId)
        requires
            old(self).wf(),
        ensures
            final(self).wf(),
            final(self)@ == match old(self)@ {
                Some(watchers) => Some(without(watchers, watcher_id)),
                None => None,
            },
    {
        match &mut self.watchers {
            Some(watchers) => {
                watchers.remove(watcher_id);
            },
            None => {},
        }
    }

    /// Closes registration and hands out who is to be told.
    pub fn close(&mut self) -> (watchers: Vec<Watcher<H>>)
        requires
            old(self).wf(),
        ensures
            final(self).wf(),
            final(self)@ is None,
            watchers@ == match old(self)@ {
                Some(entries) => watchers_of(entries),
                None => Seq::empty(),
            },
    {
        let mut taken: Option<Table<ActorId, H>> = None;
        std::mem::swap(&mut self.watchers, &mut taken);
        match taken {
            Some(table) => into_watchers(table.entries),
            None => Vec::new(),
        }
    }
}

/// A watcher registered before registration is closed is handed out by the close, exactly once.
pub proof fn a_registered_watcher_is_told<H>(entries: Seq<(ActorId, H)>, watcher: Watcher<H>)
    requires
        distinct(entries),
    ensures
        ({
            let told = watchers_of(with_watcher(entries, watcher));
            &&& exists|i: int|
                0 <= i < told.len() && (#[trigger] told[i]).watcher_id == watcher.watcher_id
            &&& forall|i: int, j: int|
                0 <= i < j < told.len() ==> (#[trigger] told[i]).watcher_id != (
                #[trigger] told[j]).watcher_id
        }),
{
    let after = with_watcher(entries, watcher);
    let told = watchers_of(after);
    if has_key(entries, watcher.watcher_id) {
        let i = key_index(entries, watcher.watcher_id);
        assert(told[i].watcher_id == watcher.watcher_id);
    } else {
        assert(told[entries.len() as int].watcher_id == watcher.watcher_id);
        lemma_put(entries, watcher.watcher_id, watcher.handler);
        assert(after =~= put(entries, watcher.watcher_id, watcher.handler));
    }
    assert forall|i: int, j: int| 0 <= i < j < told.len() implies (#[trigger] told[i]).watcher_id
        != (#[trigger] told[j]).watcher_id by {
        assert(after[i].0 != after[j].0);
    }
}

/// A watcher is registered last, once per identity: one which is registered already keeps its place
/// and its handler.
pub proof fn a_watcher_is_registered_once<H>(entries: Seq<(ActorId, H)>, watcher: Watcher<H>)
    ensures
        ({
            let known = exists|i: int|
                0 <= i < entries.len() && (#[trigger] entries[i]).0 == watcher.watcher_id;
            let after = with_watcher(entries, watcher);
            &&& known ==> after == entries
            &&& !known ==> after == entries + seq![(watcher.watcher_id, watcher.handler)]
        }),
{
    assert(entries.push((watcher.watcher_id, watcher.handler)) =~= entries + seq![
        (watcher.watcher_id, watcher.handler),
    ]);
}

/// Who is told are the watchers registered, in the order they were.
pub proof fn watchers_are_told_in_order<H>(entries: Seq<(ActorId, H)>)
    ensures
        watchers_of(entries).len() == entries.len(),
        forall|i: int|
            0 <= i < entries.len() ==> #[trigger] watchers_of(entries)[i] == (Watcher {
                watcher_id: entries[i].0,
                handler: entries[i].1,
            }),
{
}

} // verus!
