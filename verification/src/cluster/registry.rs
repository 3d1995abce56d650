//! The actors of this node which are registered for discovery.

use vstd::prelude::*;

use crate::cluster::discovery::{RegisterError, WireKey, WireKeyModel};
use crate::cluster::receptionist::{WireRegistration, WireRegistrationModel};
use crate::cluster::registrations::{framed_len, spec_framed_len};
use crate::ids::ActorId;
use crate::seqs::{first, lemma_first_absent, lemma_first_found};

verus! {

/// What is registered under a key.
#[derive(Debug, Clone, Copy, PartialEq, Eq, Structural)]
pub enum Named {
    Found(ActorId),
    NotFound,
    TypeMismatch,
}

/// The registrations of this node's actors under a version which moves with every change.
#[derive(Debug)]
pub struct Registry {
    pub version: u64,
    pub entries: Vec<WireRegistration>,
}

pub open spec fn is_under(key: WireKeyModel) -> spec_fn(WireRegistrationModel) -> bool {
    |r: WireRegistrationModel| r.key == key
}

pub open spec fn is_named(name: Seq<char>) -> spec_fn(WireRegistrationModel) -> bool {
    |r: WireRegistrationModel| r.key.name == name
}

pub open spec fn next_version(version: u64) -> u64 {
    if version == u64::MAX {
        0
    } else {
        (version + 1) as u64
    }
}

/// The registration is added under the next version, and nothing changes where it was there.
pub open spec fn is_registered(
    before: Registry,
    after: Registry,
    registration: WireRegistrationModel,
) -> bool {
    if before.entries().contains(registration) {
        after == before
    } else {
        &&& after.entries() == before.entries().push(registration)
        &&& after.version == next_version(before.version)
    }
}

impl Registry {
    pub open spec fn entries(&self) -> Seq<WireRegistrationModel> {
        self.entries.deep_view()
    }

    /// One of the actors under the key; a name held under other types only is a mismatch.
    pub open spec fn spec_named(&self, key: WireKeyModel) -> Named {
        match first(self.entries(), is_under(key)) {
            Some(registration) => Named::Found(registration.id),
            None => match first(self.entries(), is_named(key.name)) {
                Some(_) => Named::TypeMismatch,
                None => Named::NotFound,
            },
        }
    }

    pub fn new() -> (registry: Self)
        ensures
            registry.version == 0,
            registry.entries().len() == 0,
    {
        Registry { version: 0, entries: Vec::new() }
    }

    fn position(&self, registration: &WireRegistration) -> (at: Option<usize>)
        ensures
            at is Some == self.entries().contains(registration.deep_view()),
    {
        let mut i: usize = 0;
        while i < self.entries.len()
            invariant
                i <= self.entries@.len(),
                forall|j: int|
                    0 <= j < i ==> #[trigger] self.entries()[j] != registration.deep_view(),
            decreases self.entries@.len() - i,
        {
            let entry = &self.entries[i];
            assert(self.entries()[i as int] == entry.deep_view());
            if entry.id == registration.id && entry.key.name == registration.key.name
                && entry.key.type_tag == registration.key.type_tag {
                assert(entry.deep_view() == registration.deep_view());
                return Some(i);
            }
            i = i + 1;
        }
        None
    }

    /// Registers an actor under a key. Registering it again under the same key changes nothing.
    pub fn register(&mut self, key: WireKey, id: ActorId)
        ensures
            is_registered(
                *old(self),
                *final(self),
                WireRegistrationModel { key: key.deep_view(), id },
            ),
    {
        let ghost before = self.entries();
        let registration = WireRegistration { key, id };
        if self.position(&registration).is_none() {
            self.entries.push(registration);
            self.version = if self.version == u64::MAX {
                0
            } else {
                self.version + 1
            };
            assert(self.entries() =~= before.push(registration.deep_view()));
        }
    }

    /// Drops every registration of a terminated actor.
    pub fn evict(&mut self, id: ActorId)
        ensures
            final(self).entries() == old(self).entries().filter(
                |r: WireRegistrationModel| r.id != id,
            ),
            final(self).version == if final(self).entries() == old(self).entries() {
                old(self).version
            } else {
                next_version(old(self).version)
            },
    {
        let ghost p = |r: WireRegistrationModel| r.id != id;
        let ghost all = self.entries();
        let mut rest: Vec<WireRegistration> = Vec::new();
        std::mem::swap(&mut self.entries, &mut rest);
        let mut kept: Vec<WireRegistration> = Vec::new();
        let count: usize = rest.len();
        let ghost mut seen: int = 0;
        proof {
            crate::seqs::lemma_filter_start(all, p);
            assert(kept.deep_view() =~= all.take(0).filter(p));
            assert(rest.deep_view() =~= all.skip(0));
        }
        while rest.len() > 0
            invariant
                0 <= seen <= all.len(),
                p == (|r: WireRegistrationModel| r.id != id),
                rest.deep_view() =~= all.skip(seen),
                kept.deep_view() == all.take(seen).filter(p),
                kept@.len() <= seen,
                kept@.len() == seen ==> kept.deep_view() == all.take(seen),
            decreases rest@.len(),
        {
            let ghost held = kept.deep_view();
            let ghost before = rest.deep_view();
            assert(before.len() == rest@.len());
            assert(all.skip(seen)[0] == all[seen]);
            let registration = rest.remove(0);
            proof {
                assert(before[0] == registration.deep_view());
                assert(before[0] == all[seen]);
                assert(rest.deep_view() =~= before.remove(0));
                assert(before.remove(0) =~= all.skip(seen + 1));
                crate::seqs::lemma_filter_step(all, p, seen);
                assert(all.take(seen + 1) =~= all.take(seen).push(all[seen]));
            }
            if registration.id != id {
                kept.push(registration);
                assert(kept.deep_view() =~= held.push(registration.deep_view()));
            }
            proof {
                seen = seen + 1;
            }
        }
        proof {
            crate::seqs::lemma_filter_start(all, p);
            assert(kept.deep_view().len() == kept@.len());
        }
        if kept.len() != count {
            self.version = if self.version == u64::MAX {
                0
            } else {
                self.version + 1
            };
        }
        self.entries = kept;
    }

    /// What is registered under the key.
    pub fn named(&self, key: &WireKey) -> (named: Named)
        ensures
            named == self.spec_named(key.deep_view()),
    {
        let ghost k = key.deep_view();
        let ghost under = is_under(k);
        let ghost other = is_named(k.name);
        let mut mismatch = false;
        let mut i: usize = 0;
        while i < self.entries.len()
            invariant
                i <= self.entries@.len(),
                k == key.deep_view(),
                under == is_under(k),
                other == is_named(k.name),
                forall|j: int| 0 <= j < i ==> !under(#[trigger] self.entries()[j]),
                mismatch == (exists|j: int| 0 <= j < i && other(#[trigger] self.entries()[j])),
            decreases self.entries@.len() - i,
        {
            let entry = &self.entries[i];
            assert(self.entries()[i as int] == entry.deep_view());
            if entry.key.name == key.name {
                if entry.key.type_tag == key.type_tag {
                    assert(entry.deep_view().key == k);
                    proof {
                        lemma_first_found(self.entries(), under, i as int);
                    }
                    return Named::Found(entry.id);
                }
                assert(other(self.entries()[i as int]));
                mismatch = true;
            }
            i = i + 1;
        }
        proof {
            lemma_first_absent(self.entries(), under);
            crate::seqs::lemma_first_some(self.entries(), other);
        }
        if mismatch {
            Named::TypeMismatch
        } else {
            Named::NotFound
        }
    }
}

/// Registers an actor of this node under a key, so other nodes can look it up by name and address.
/// Only actors of this node can be registered here, and only if the registration fits one frame.
pub fn register(
    registry: Option<&mut Registry>,
    key: WireKey,
    id: ActorId,
    local: bool,
    max_frame_size: usize,
) -> (r: Result<(), RegisterError>)
    ensures
        registry is None ==> r == Err::<(), RegisterError>(RegisterError::EndpointNotStarted),
        registry matches Some(registry) ==> {
            let registration = WireRegistrationModel { key: key.deep_view(), id };
            let len = spec_framed_len(registration);
            if !local {
                r == Err::<(), RegisterError>(RegisterError::NotLocal) && *final(registry)
                    == *registry
            } else if len > max_frame_size {
                r == Err::<(), RegisterError>(
                    RegisterError::TooLarge { len: len as usize, max: max_frame_size },
                ) && *final(registry) == *registry
            } else {
                r == Ok::<(), RegisterError>(()) && is_registered(
                    *registry,
                    *final(registry),
                    registration,
                )
            }
        },
{
    match registry {
        Some(registry) => {
            if !local {
                return Err(RegisterError::NotLocal);
            }
            let registration = WireRegistration { key, id };
            let len: usize = framed_len(&registration);
            if len > max_frame_size {
                return Err(RegisterError::TooLarge { len, max: max_frame_size });
            }
            registry.register(registration.key, id);
            Ok(())
        },
        None => Err(RegisterError::EndpointNotStarted),
    }
}

/// An actor which is registered under a key is found under it until it terminates.
pub proof fn a_registered_actor_is_found(registry: Registry, key: WireKeyModel, id: ActorId)
    requires
        registry.entries().contains(WireRegistrationModel { key, id }),
    ensures
        registry.spec_named(key) is Found,
        registry.spec_named(key) matches Named::Found(found) ==> registry.entries().contains(
            WireRegistrationModel { key, id: found },
        ),
{
    crate::seqs::lemma_first_some(registry.entries(), is_under(key));
    let i = choose|i: int|
        0 <= i < registry.entries().len() && registry.entries()[i] == (WireRegistrationModel {
            key,
            id,
        });
    assert(is_under(key)(registry.entries()[i]));
}

/// A name is found with the first actor registered under it and its type; it is held otherwise if
/// only other types are registered under it, and unknown if nothing is.
pub proof fn a_name_is_told_by_its_registrations(registry: Registry, key: WireKeyModel)
    ensures
        ({
            let entries = registry.entries();
            let under = exists|i: int| 0 <= i < entries.len() && (#[trigger] entries[i]).key == key;
            let named = exists|i: int|
                0 <= i < entries.len() && (#[trigger] entries[i]).key.name == key.name;
            &&& registry.spec_named(key) is Found <==> under
            &&& registry.spec_named(key) is TypeMismatch <==> named && !under
            &&& registry.spec_named(key) is NotFound <==> !named
            &&& forall|i: int|
                0 <= i < entries.len() && (#[trigger] entries[i]).key == key && (forall|j: int|
                    0 <= j < i ==> (#[trigger] entries[j]).key != key) ==> registry.spec_named(key)
                    == Named::Found(entries[i].id)
        }),
{
    let entries = registry.entries();
    crate::seqs::lemma_first_some(entries, is_under(key));
    crate::seqs::lemma_first_some(entries, is_named(key.name));
    assert forall|i: int| 0 <= i < entries.len() implies is_under(key)(#[trigger] entries[i]) == (
    entries[i].key == key) && is_named(key.name)(entries[i]) == (entries[i].key.name
        == key.name) by {}
    assert forall|i: int|
        0 <= i < entries.len() && (#[trigger] entries[i]).key == key && (forall|j: int|
            0 <= j < i ==> (#[trigger] entries[j]).key != key) implies registry.spec_named(key)
        == Named::Found(entries[i].id) by {
        assert(crate::seqs::is_first(entries, is_under(key), i));
        lemma_first_found(entries, is_under(key), i);
    }
}

/// A registration is added last, once, and moves the version where it is new.
pub proof fn a_registration_is_added_once(
    registry: &mut Registry,
    key: WireKey,
    id: ActorId,
)
    requires
        call_ensures(Registry::register, (registry, key, id), ()),
    ensures
        ({
            let before = old(registry).entries();
            let registration = WireRegistrationModel { key: key.deep_view(), id };
            let known = exists|i: int| 0 <= i < before.len() && #[trigger] before[i] == registration;
            &&& known ==> final(registry).entries() == before && final(registry).version == old(
                registry).version
            &&& !known ==> final(registry).entries() == before + seq![registration]
            &&& !known && old(registry).version < u64::MAX ==> final(registry).version == old(
                registry).version + 1
        }),
{
    let before = old(registry).entries();
    let registration = WireRegistrationModel { key: key.deep_view(), id };
    assert(before.push(registration) =~= before + seq![registration]);
    if before.contains(registration) {
        let i = choose|i: int| 0 <= i < before.len() && before[i] == registration;
        assert(before[i] == registration);
    }
}

/// An actor which ends loses all its registrations and no other; the version moves if it had any.
pub proof fn an_ended_actor_is_not_found(
    registry: &mut Registry,
    id: ActorId,
    registration: WireRegistrationModel,
)
    requires
        call_ensures(Registry::evict, (registry, id), ()),
    ensures
        ({
            let before = old(registry).entries();
            let had = exists|i: int| 0 <= i < before.len() && (#[trigger] before[i]).id == id;
            &&& final(registry).entries().contains(registration) <==> before.contains(registration)
                && registration.id != id
            &&& !had ==> final(registry).version == old(registry).version
            &&& had && old(registry).version < u64::MAX ==> final(registry).version == old(
                registry).version + 1
        }),
{
    let before = old(registry).entries();
    let keep = |r: WireRegistrationModel| r.id != id;
    crate::seqs::lemma_filter_contains(before, keep, registration);
    if exists|i: int| 0 <= i < before.len() && (#[trigger] before[i]).id == id {
        let i = choose|i: int| 0 <= i < before.len() && (#[trigger] before[i]).id == id;
        assert(before.contains(before[i]));
        crate::seqs::lemma_filter_contains(before, keep, before[i]);
        assert(before.filter(keep) != before);
    } else {
        crate::seqs::lemma_filter_all(before, keep);
    }
}

} // verus!
