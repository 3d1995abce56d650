//! Association lists with distinct keys, kept in insertion order.

use vstd::prelude::*;

use crate::seqs::{lemma_filter_start, lemma_filter_step};

verus! {

/// A type whose values can be told apart.
pub trait Ident: Copy {
    fn same(&self, other: &Self) -> (r: bool)
        ensures
            r == (*self == *other),
    ;
}

impl Ident for u64 {
    fn same(&self, other: &Self) -> (r: bool) {
        *self == *other
    }
}

/// No key occurs twice.
pub open spec fn distinct<K, V>(s: Seq<(K, V)>) -> bool {
    forall|i: int, j: int|
        0 <= i < j < s.len() ==> (#[trigger] s[i]).0 != (#[trigger] s[j]).0
}

pub open spec fn has_key<K, V>(s: Seq<(K, V)>, key: K) -> bool {
    exists|i: int| 0 <= i < s.len() && (#[trigger] s[i]).0 == key
}

pub open spec fn key_index<K, V>(s: Seq<(K, V)>, key: K) -> int {
    choose|i: int| 0 <= i < s.len() && (#[trigger] s[i]).0 == key
}

/// The value under the key.
pub open spec fn value_of<K, V>(s: Seq<(K, V)>, key: K) -> Option<V> {
    if has_key(s, key) {
        Some(s[key_index(s, key)].1)
    } else {
        None
    }
}

/// The entry of the key replaced, or appended where there is none.
pub open spec fn put<K, V>(s: Seq<(K, V)>, key: K, value: V) -> Seq<(K, V)> {
    if has_key(s, key) {
        s.update(key_index(s, key), (key, value))
    } else {
        s.push((key, value))
    }
}

/// The entries but the one of the key.
pub open spec fn without<K, V>(s: Seq<(K, V)>, key: K) -> Seq<(K, V)> {
    if has_key(s, key) {
        s.remove(key_index(s, key))
    } else {
        s
    }
}

/// The entries as a map from key to value.
pub open spec fn as_map<K, V>(s: Seq<(K, V)>) -> Map<K, V> {
    Map::new(|key: K| has_key(s, key), |key: K| value_of(s, key)->0)
}

pub proof fn lemma_key_index<K, V>(s: Seq<(K, V)>, i: int)
    requires
        distinct(s),
        0 <= i < s.len(),
    ensures
        has_key(s, s[i].0),
        key_index(s, s[i].0) == i,
        value_of(s, s[i].0) == Some(s[i].1),
{
    let k = s[i].0;
    assert(has_key(s, k));
    let j = key_index(s, k);
    assert(0 <= j < s.len() && s[j].0 == k);
    if j < i {
        assert(s[j].0 != s[i].0);
    } else if i < j {
        assert(s[i].0 != s[j].0);
    }
}

pub proof fn lemma_put<K, V>(s: Seq<(K, V)>, key: K, value: V)
    requires
        distinct(s),
    ensures
        distinct(put(s, key, value)),
        as_map(put(s, key, value)) == as_map(s).insert(key, value),
{
    let t = put(s, key, value);
    if has_key(s, key) {
        let at = key_index(s, key);
        assert forall|i: int, j: int| 0 <= i < j < t.len() implies (#[trigger] t[i]).0 != (
        #[trigger] t[j]).0 by {
            assert(s[i].0 != s[j].0);
        }
    } else {
        assert forall|i: int, j: int| 0 <= i < j < t.len() implies (#[trigger] t[i]).0 != (
        #[trigger] t[j]).0 by {
            if j < s.len() {
                assert(s[i].0 != s[j].0);
            } else {
                assert(s[i].0 != key);
            }
        }
    }
    assert forall|k: K| #[trigger] has_key(t, k) == (k == key || has_key(s, k)) by {
        if has_key(t, k) {
            let i = key_index(t, k);
            assert(t[i].0 == k);
            if i < s.len() {
                assert(s[i].0 == k || k == key);
            }
        }
        if has_key(s, k) {
            let i = key_index(s, k);
            assert(t[i].0 == k);
        }
        if k == key {
            if has_key(s, key) {
                assert(t[key_index(s, key)].0 == key);
            } else {
                assert(t[s.len() as int].0 == key);
            }
        }
    }
    assert forall|k: K| has_key(t, k) implies value_of(t, k) == (if k == key {
        Some(value)
    } else {
        value_of(s, k)
    }) by {
        let i = key_index(t, k);
        lemma_key_index(t, i);
        if k == key {
            if has_key(s, key) {
                lemma_key_index(t, key_index(s, key));
            } else {
                lemma_key_index(t, s.len() as int);
            }
        } else {
            lemma_key_index(s, i);
        }
    }
    assert(as_map(t) =~= as_map(s).insert(key, value));
}

pub proof fn lemma_without<K, V>(s: Seq<(K, V)>, key: K)
    requires
        distinct(s),
    ensures
        distinct(without(s, key)),
        as_map(without(s, key)) == as_map(s).remove(key),
{
    let t = without(s, key);
    if has_key(s, key) {
        let at = key_index(s, key);
        assert forall|i: int, j: int| 0 <= i < j < t.len() implies (#[trigger] t[i]).0 != (
        #[trigger] t[j]).0 by {
            let a = if i < at { i } else { i + 1 };
            let b = if j < at { j } else { j + 1 };
            assert(s[a].0 != s[b].0);
        }
        assert forall|k: K| #[trigger] has_key(t, k) == (k != key && has_key(s, k)) by {
            if has_key(t, k) {
                let i = key_index(t, k);
                let a = if i < at { i } else { i + 1 };
                assert(s[a].0 == k);
                if a < at {
                    assert(s[a].0 != s[at].0);
                } else {
                    assert(s[at].0 != s[a].0);
                }
            }
            if k != key && has_key(s, k) {
                let a = key_index(s, k);
                let i = if a < at { a } else { a - 1 };
                assert(t[i].0 == k);
            }
        }
        assert forall|k: K| has_key(t, k) implies value_of(t, k) == value_of(s, k) by {
            let i = key_index(t, k);
            let a = if i < at { i } else { i + 1 };
            assert(s[a].0 == k);
            lemma_key_index(s, a);
        }
    }
    assert(as_map(t) =~= as_map(s).remove(key));
}

/// Keeping some entries keeps the keys distinct, and the map loses the others.
pub proof fn lemma_filter<K, V>(s: Seq<(K, V)>, keep: spec_fn((K, V)) -> bool)
    requires
        distinct(s),
    ensures
        distinct(s.filter(keep)),
        forall|k: K| #[trigger]
            has_key(s.filter(keep), k) == (has_key(s, k) && keep((k, value_of(s, k)->0))),
        forall|k: K|
            has_key(s.filter(keep), k) ==> #[trigger] value_of(s.filter(keep), k) == value_of(s, k),
    decreases s.len(),
{
    reveal(Seq::filter);
    if s.len() == 0 {
    } else {
        let r = s.drop_last();
        let e = s.last();
        assert(distinct(r)) by {
            assert forall|i: int, j: int| 0 <= i < j < r.len() implies (#[trigger] r[i]).0 != (
            #[trigger] r[j]).0 by {
                assert(s[i].0 != s[j].0);
            }
        }
        lemma_filter(r, keep);
        let f = r.filter(keep);
        let t = s.filter(keep);
        assert(!has_key(r, e.0)) by {
            if has_key(r, e.0) {
                let i = key_index(r, e.0);
                assert(s[i].0 != s[s.len() - 1].0);
            }
        }
        assert forall|k: K| #[trigger] has_key(s, k) == (k == e.0 || has_key(r, k)) by {
            if has_key(s, k) {
                let i = key_index(s, k);
                if i < r.len() {
                    assert(r[i].0 == k);
                }
            }
            if has_key(r, k) {
                assert(s[key_index(r, k)].0 == k);
            }
            if k == e.0 {
                assert(s[s.len() - 1].0 == k);
            }
        }
        assert forall|k: K| has_key(s, k) implies #[trigger] value_of(s, k) == (if k == e.0 {
            Some(e.1)
        } else {
            value_of(r, k)
        }) by {
            let i = key_index(s, k);
            lemma_key_index(s, i);
            if k == e.0 {
                lemma_key_index(s, s.len() - 1);
            } else {
                lemma_key_index(r, i);
            }
        }
        if keep(e) {
            assert(t == f.push(e));
            assert(!has_key(f, e.0));
            assert(t == put(f, e.0, e.1));
            lemma_put(f, e.0, e.1);
            assert(as_map(t) == as_map(f).insert(e.0, e.1));
            assert forall|k: K| #[trigger] has_key(t, k) == (has_key(s, k) && keep(
                (k, value_of(s, k)->0),
            )) by {
                assert(as_map(t).dom().contains(k) == has_key(t, k));
                assert(as_map(f).dom().contains(k) == has_key(f, k));
            }
            assert forall|k: K| has_key(t, k) implies #[trigger] value_of(t, k) == value_of(
                s,
                k,
            ) by {
                assert(as_map(t).dom().contains(k));
                assert(as_map(t)[k] == value_of(t, k)->0);
                if k != e.0 {
                    assert(as_map(f).dom().contains(k));
                    assert(as_map(f)[k] == value_of(f, k)->0);
                }
            }
        } else {
            assert(t == f);
        }
    }
}

/// The map of kept entries.
pub proof fn lemma_filter_map<K, V>(s: Seq<(K, V)>, keep: spec_fn((K, V)) -> bool)
    requires
        distinct(s),
    ensures
        as_map(s.filter(keep)) == Map::new(
            |k: K| as_map(s).dom().contains(k) && keep((k, as_map(s)[k])),
            |k: K| as_map(s)[k],
        ),
{
    lemma_filter(s, keep);
    let t = s.filter(keep);
    let expected = Map::new(
        |k: K| as_map(s).dom().contains(k) && keep((k, as_map(s)[k])),
        |k: K| as_map(s)[k],
    );
    assert forall|k: K| as_map(t).dom().contains(k) == expected.dom().contains(k) by {
        assert(has_key(t, k) == (has_key(s, k) && keep((k, value_of(s, k)->0))));
    }
    assert forall|k: K| as_map(t).dom().contains(k) implies as_map(t)[k] == expected[k] by {
        assert(has_key(t, k));
        assert(value_of(t, k) == value_of(s, k));
    }
    assert(as_map(t) =~= expected);
}

/// The map has as many keys as the list has entries.
pub proof fn lemma_map_len<K, V>(s: Seq<(K, V)>)
    requires
        distinct(s),
    ensures
        as_map(s).dom().finite(),
        as_map(s).dom().len() == s.len(),
    decreases s.len(),
{
    if s.len() == 0 {
        assert(as_map(s).dom() =~= Set::empty());
    } else {
        let r = s.drop_last();
        let e = s.last();
        assert(distinct(r)) by {
            assert forall|i: int, j: int| 0 <= i < j < r.len() implies (#[trigger] r[i]).0 != (
            #[trigger] r[j]).0 by {
                assert(s[i].0 != s[j].0);
            }
        }
        lemma_map_len(r);
        assert(!has_key(r, e.0)) by {
            if has_key(r, e.0) {
                let i = key_index(r, e.0);
                assert(s[i].0 != s[s.len() - 1].0);
            }
        }
        assert(s =~= put(r, e.0, e.1));
        lemma_put(r, e.0, e.1);
        assert(as_map(s).dom() =~= as_map(r).dom().insert(e.0));
    }
}

/// What the list holds at an index is what its map holds under that key.
pub proof fn lemma_entry_in_map<K, V>(s: Seq<(K, V)>, i: int)
    requires
        distinct(s),
        0 <= i < s.len(),
    ensures
        as_map(s).dom().contains(s[i].0),
        as_map(s)[s[i].0] == s[i].1,
{
    lemma_key_index(s, i);
}

/// Every key of the map is the key of an entry.
pub proof fn lemma_map_in_entries<K, V>(s: Seq<(K, V)>, key: K) -> (i: int)
    requires
        distinct(s),
        as_map(s).dom().contains(key),
    ensures
        0 <= i < s.len(),
        s[i] == (key, as_map(s)[key]),
{
    let i = key_index(s, key);
    lemma_key_index(s, i);
    i
}

/// An association list with distinct keys.
#[derive(Debug)]
pub struct Table<K, V> {
    pub(crate) entries: Vec<(K, V)>,
}

impl<K, V> View for Table<K, V> {
    type V = Seq<(K, V)>;

    open(crate) spec fn view(&self) -> Seq<(K, V)> {
        self.entries@
    }
}

impl<K: Ident, V> Table<K, V> {
    pub open spec fn wf(&self) -> bool {
        distinct(self@)
    }

    pub open spec fn map(&self) -> Map<K, V> {
        as_map(self@)
    }

    pub fn new() -> (table: Self)
        ensures
            table.wf(),
            table@ == Seq::<(K, V)>::empty(),
            table.map() == Map::<K, V>::empty(),
    {
        let table = Table { entries: Vec::new() };
        assert(table.map() =~= Map::<K, V>::empty());
        table
    }

    pub fn len(&self) -> (len: usize)
        ensures
            len == self@.len(),
    {
        self.entries.len()
    }

    /// The index of the key's entry.
    pub fn position(&self, key: K) -> (at: Option<usize>)
        requires
            self.wf(),
        ensures
            at is Some == has_key(self@, key),
            at matches Some(i) ==> i < self@.len() && self@[i as int].0 == key && i == key_index(
                self@,
                key,
            ) && value_of(self@, key) == Some(self@[i as int].1),
    {
        let mut i: usize = 0;
        while i < self.entries.len()
            invariant
                self.wf(),
                i <= self@.len(),
                forall|j: int| 0 <= j < i ==> (#[trigger] self@[j]).0 != key,
            decreases self@.len() - i,
        {
            if self.entries[i].0.same(&key) {
                proof {
                    lemma_key_index(self@, i as int);
                }
                return Some(i);
            }
            i = i + 1;
        }
        None
    }

    pub fn contains_key(&self, key: K) -> (r: bool)
        requires
            self.wf(),
        ensures
            r == has_key(self@, key),
            r == self.map().dom().contains(key),
    {
        self.position(key).is_some()
    }

    pub fn get(&self, key: K) -> (value: Option<&V>)
        requires
            self.wf(),
        ensures
            value is Some == has_key(self@, key),
            value is Some == self.map().dom().contains(key),
            value matches Some(v) ==> value_of(self@, key) == Some(*v) && self.map()[key] == *v,
    {
        match self.position(key) {
            Some(i) => Some(&self.entries[i].1),
            None => None,
        }
    }

    pub fn insert(&mut self, key: K, value: V)
        requires
            old(self).wf(),
        ensures
            final(self).wf(),
            final(self)@ == put(old(self)@, key, value),
            final(self).map() == old(self).map().insert(key, value),
    {
        proof {
            lemma_put(self@, key, value);
        }
        match self.position(key) {
            Some(i) => {
                self.entries.set(i, (key, value));
            },
            None => {
                self.entries.push((key, value));
            },
        }
    }

    pub fn remove(&mut self, key: K) -> (removed: Option<V>)
        requires
            old(self).wf(),
        ensures
            final(self).wf(),
            final(self)@ == without(old(self)@, key),
            final(self).map() == old(self).map().remove(key),
            removed == value_of(old(self)@, key),
            removed == if old(self).map().dom().contains(key) {
                Some(old(self).map()[key])
            } else {
                None
            },
    {
        proof {
            lemma_without(self@, key);
        }
        match self.position(key) {
            Some(i) => {
                let (_, value) = self.entries.remove(i);
                Some(value)
            },
            None => None,
        }
    }

    /// Keeps the entries `keep` says yes to, which is to decide as `p` does.
    pub fn retain<F: Fn(&K, &V) -> bool>(
        &mut self,
        keep: F,
        Ghost(p): Ghost<spec_fn((K, V)) -> bool>,
    )
        requires
            old(self).wf(),
            forall|k: K, v: V| #[trigger] keep.requires((&k, &v)),
            forall|k: K, v: V, r: bool| #[trigger] keep.ensures((&k, &v), r) ==> r == p((k, v)),
        ensures
            final(self).wf(),
            final(self)@ == old(self)@.filter(p),
            final(self).map() == Map::new(
                |k: K| old(self).map().dom().contains(k) && p((k, old(self).map()[k])),
                |k: K| old(self).map()[k],
            ),
    {
        let ghost s = self@;
        let ghost mut seen: int = 0;
        let mut i: usize = 0;
        proof {
            lemma_filter_start(s, p);
            assert(self@ =~= s.take(0).filter(p) + s.skip(0));
        }
        while i < self.entries.len()
            invariant
                0 <= seen <= s.len(),
                self@ == s.take(seen).filter(p) + s.skip(seen),
                i == s.take(seen).filter(p).len(),
                forall|k: K, v: V| #[trigger] keep.requires((&k, &v)),
                forall|k: K, v: V, r: bool| #[trigger]
                    keep.ensures((&k, &v), r) ==> r == p((k, v)),
            decreases s.len() - seen,
        {
            let ghost done = s.take(seen).filter(p);
            proof {
                assert(seen < s.len()) by {
                    if seen == s.len() {
                        assert(self@ =~= done);
                    }
                }
                assert(self@[i as int] == s[seen]);
                lemma_filter_step(s, p, seen);
            }
            let kept = keep(&self.entries[i].0, &self.entries[i].1);
            if kept {
                i = i + 1;
                proof {
                    assert(done.push(s[seen]) + s.skip(seen + 1) =~= done + s.skip(seen));
                }
            } else {
                self.entries.remove(i);
                proof {
                    assert((done + s.skip(seen)).remove(i as int) =~= done + s.skip(seen + 1));
                }
            }
            proof {
                seen = seen + 1;
            }
        }
        proof {
            lemma_filter_start(s, p);
            assert(seen == s.len()) by {
                if seen < s.len() {
                    assert(self@.len() > i);
                }
            }
            assert(s.take(seen).filter(p) + s.skip(seen) =~= s.filter(p));
            lemma_filter(s, p);
            lemma_filter_map(s, p);
        }
    }

    /// Keeps the entries `keep` says yes to, which is to decide as `p` does, and hands back the
    /// others in order.
    pub fn split<F: Fn(&K, &V) -> bool>(
        &mut self,
        keep: F,
        Ghost(p): Ghost<spec_fn((K, V)) -> bool>,
    ) -> (removed: Vec<(K, V)>)
        requires
            old(self).wf(),
            forall|k: K, v: V| #[trigger] keep.requires((&k, &v)),
            forall|k: K, v: V, r: bool| #[trigger] keep.ensures((&k, &v), r) ==> r == p((k, v)),
        ensures
            final(self).wf(),
            final(self)@ == old(self)@.filter(p),
            removed@ == old(self)@.filter(|e: (K, V)| !p(e)),
            final(self).map() == Map::new(
                |k: K| old(self).map().dom().contains(k) && p((k, old(self).map()[k])),
                |k: K| old(self).map()[k],
            ),
    {
        let ghost s = self@;
        let ghost q = |e: (K, V)| !p(e);
        let mut rest: Vec<(K, V)> = Vec::new();
        std::mem::swap(&mut self.entries, &mut rest);
        let mut kept: Vec<(K, V)> = Vec::new();
        let mut removed: Vec<(K, V)> = Vec::new();
        let ghost mut seen: int = 0;
        proof {
            lemma_filter_start(s, p);
            lemma_filter_start(s, q);
            assert(rest@ =~= s.skip(0));
        }
        while rest.len() > 0
            invariant
                0 <= seen <= s.len(),
                rest@ == s.skip(seen),
                q == (|e: (K, V)| !p(e)),
                kept@ == s.take(seen).filter(p),
                removed@ == s.take(seen).filter(q),
                forall|k: K, v: V| #[trigger] keep.requires((&k, &v)),
                forall|k: K, v: V, r: bool| #[trigger]
                    keep.ensures((&k, &v), r) ==> r == p((k, v)),
            decreases rest@.len(),
        {
            proof {
                assert(rest@[0] == s[seen]);
                lemma_filter_step(s, p, seen);
                lemma_filter_step(s, q, seen);
            }
            let entry = rest.remove(0);
            let is_kept = keep(&entry.0, &entry.1);
            assert(rest@ =~= s.skip(seen + 1));
            if is_kept {
                kept.push(entry);
            } else {
                removed.push(entry);
            }
            proof {
                seen = seen + 1;
            }
        }
        proof {
            lemma_filter_start(s, p);
            lemma_filter_start(s, q);
            lemma_filter(s, p);
            lemma_filter_map(s, p);
        }
        self.entries = kept;
        removed
    }
}

} // verus!
