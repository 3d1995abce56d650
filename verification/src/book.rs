//! Values by keys which need not be copied bit by bit, such as text.

use vstd::prelude::*;

use crate::table::Ident;

verus! {

/// A type whose values can be told apart by what identifies them.
pub trait Identified: Sized {
    /// What identifies a value.
    type Id;

    spec fn ident(&self) -> Self::Id;

    fn same(&self, other: &Self) -> (r: bool)
        ensures
            r == (self.ident() == other.ident()),
    ;

    /// Another value which cannot be told apart from this one.
    fn copied(&self) -> (copy: Self)
        ensures
            copy.ident() == self.ident(),
    ;
}

impl<K: Ident> Identified for K {
    type Id = K;

    open spec fn ident(&self) -> K {
        *self
    }

    fn same(&self, other: &Self) -> (r: bool) {
        Ident::same(self, other)
    }

    fn copied(&self) -> (copy: Self) {
        *self
    }
}

impl Identified for String {
    type Id = Seq<char>;

    open spec fn ident(&self) -> Seq<char> {
        self@
    }

    fn same(&self, other: &Self) -> (r: bool) {
        *self == *other
    }

    fn copied(&self) -> (copy: Self) {
        self.clone()
    }
}

/// Values by key.
#[derive(Debug)]
pub struct Book<K, V> {
    pub(crate) entries: Vec<(K, V)>,
}

pub open spec fn is_entry<K: Identified, V>(entries: Seq<(K, V)>, id: K::Id, i: int) -> bool {
    0 <= i < entries.len() && entries[i].0.ident() == id
}

pub open spec fn has_entry<K: Identified, V>(entries: Seq<(K, V)>, id: K::Id) -> bool {
    exists|i: int| is_entry(entries, id, i)
}

/// What is held under the key.
pub open spec fn held<K: Identified, V>(entries: Seq<(K, V)>, id: K::Id) -> Option<V> {
    if has_entry(entries, id) {
        Some(entries[choose|i: int| is_entry(entries, id, i)].1)
    } else {
        None
    }
}

impl<K: Identified, V> Book<K, V> {
    /// There is one entry per key.
    pub open(crate) spec fn wf(&self) -> bool {
        forall|i: int, j: int|
            0 <= i < j < self.entries@.len() ==> (#[trigger] self.entries@[i]).0.ident() != (
            #[trigger] self.entries@[j]).0.ident()
    }

    pub open(crate) spec fn spec_held(&self, id: K::Id) -> Option<V> {
        held(self.entries@, id)
    }

    /// The values by what identifies their keys.
    pub open spec fn map(&self) -> Map<K::Id, V> {
        Map::new(|id: K::Id| self.spec_held(id) is Some, |id: K::Id| self.spec_held(id)->0)
    }

    pub fn new() -> (book: Self)
        ensures
            book.wf(),
            forall|id: K::Id| #[trigger] book.spec_held(id) is None,
    {
        Book { entries: Vec::new() }
    }

    pub(crate) proof fn lemma_held(&self, i: int)
        requires
            self.wf(),
            0 <= i < self.entries@.len(),
        ensures
            self.spec_held(self.entries@[i].0.ident()) == Some(self.entries@[i].1),
    {
        let id = self.entries@[i].0.ident();
        assert(is_entry(self.entries@, id, i));
        let j = choose|j: int| is_entry(self.entries@, id, j);
        if i < j {
            assert(self.entries@[i].0.ident() != self.entries@[j].0.ident());
        } else if j < i {
            assert(self.entries@[j].0.ident() != self.entries@[i].0.ident());
        }
    }

    /// The index of the entry of the key.
    fn position(&self, id: &K) -> (at: Option<usize>)
        requires
            self.wf(),
        ensures
            at is Some == has_entry(self.entries@, id.ident()),
            at is Some == self.spec_held(id.ident()) is Some,
            at matches Some(i) ==> i < self.entries@.len() && self.entries@[i as int].0.ident() == id.ident()
                && self.spec_held(id.ident()) == Some(self.entries@[i as int].1),
    {
        let mut i: usize = 0;
        while i < self.entries.len()
            invariant
                self.wf(),
                i <= self.entries@.len(),
                forall|j: int| 0 <= j < i ==> (#[trigger] self.entries@[j]).0.ident() != id.ident(),
            decreases self.entries@.len() - i,
        {
            if self.entries[i].0.same(id) {
                proof {
                    self.lemma_held(i as int);
                    assert(is_entry(self.entries@, id.ident(), i as int));
                }
                return Some(i);
            }
            i = i + 1;
        }
        None
    }

    pub fn get(&self, id: &K) -> (value: Option<&V>)
        requires
            self.wf(),
        ensures
            match value {
                Some(v) => self.spec_held(id.ident()) == Some(*v),
                None => self.spec_held(id.ident()) is None,
            },
    {
        match self.position(id) {
            Some(i) => Some(&self.entries[i].1),
            None => None,
        }
    }

    pub fn contains_key(&self, id: &K) -> (r: bool)
        requires
            self.wf(),
        ensures
            r == self.spec_held(id.ident()) is Some,
    {
        self.position(id).is_some()
    }

    /// Takes out what is held under the key.
    pub fn take(&mut self, id: &K) -> (value: Option<V>)
        requires
            old(self).wf(),
        ensures
            final(self).wf(),
            value == old(self).spec_held(id.ident()),
            final(self).spec_held(id.ident()) is None,
            forall|other: K::Id|
                other != id.ident() ==> #[trigger] final(self).spec_held(other) == old(self).spec_held(
                    other,
                ),
    {
        match self.position(id) {
            Some(i) => {
                let ghost before = *self;
                let entry = self.entries.remove(i);
                proof {
                    let s = before.entries@;
                    let t = self.entries@;
                    assert(t =~= s.remove(i as int));
                    assert forall|a: int, b: int| 0 <= a < b < t.len() implies (#[trigger] t[a]).0.ident()
                        != (#[trigger] t[b]).0.ident() by {
                        let x = if a < i { a } else { a + 1 };
                        let y = if b < i { b } else { b + 1 };
                        assert(s[x].0.ident() != s[y].0.ident());
                    }
                    if has_entry(t, id.ident()) {
                        let a = choose|a: int| is_entry(t, id.ident(), a);
                        let x = if a < i { a } else { a + 1 };
                        assert(s[x] == t[a]);
                        if x < i {
                            assert(s[x].0.ident() != s[i as int].0.ident());
                        } else {
                            assert(s[i as int].0.ident() != s[x].0.ident());
                        }
                    }
                    assert forall|other: K::Id| other != id.ident() implies #[trigger]
                        self.spec_held(other) == before.spec_held(other) by {
                        if has_entry(s, other) {
                            let x = choose|x: int| is_entry(s, other, x);
                            let a = if x < i { x } else { x - 1 };
                            assert(t[a] == s[x]);
                            assert(is_entry(t, other, a));
                            self.lemma_held(a);
                            before.lemma_held(x);
                        }
                        if has_entry(t, other) {
                            let a = choose|a: int| is_entry(t, other, a);
                            let x = if a < i { a } else { a + 1 };
                            assert(s[x] == t[a]);
                            assert(is_entry(s, other, x));
                        }
                    }
                }
                Some(entry.1)
            },
            None => None,
        }
    }

    /// Holds a value under the key instead of what was.
    pub fn put(&mut self, id: &K, value: V)
        requires
            old(self).wf(),
        ensures
            final(self).wf(),
            final(self).spec_held(id.ident()) == Some(value),
            forall|other: K::Id|
                other != id.ident() ==> #[trigger] final(self).spec_held(other) == old(self).spec_held(
                    other,
                ),
    {
        let _ = self.take(id);
        let ghost before = *self;
        self.entries.push((id.copied(), value));
        proof {
            let s = before.entries@;
            let t = self.entries@;
            assert forall|a: int, b: int| 0 <= a < b < t.len() implies (#[trigger] t[a]).0.ident() != (
            #[trigger] t[b]).0.ident() by {
                assert(s[a].0.ident() == t[a].0.ident());
                if b == s.len() {
                    if t[a].0.ident() == id.ident() {
                        assert(is_entry(s, id.ident(), a));
                    }
                } else {
                    assert(s[a].0.ident() != s[b].0.ident());
                }
            }
            self.lemma_held(s.len() as int);
            assert forall|other: K::Id| other != id.ident() implies #[trigger] self.spec_held(
                other,
            ) == before.spec_held(other) by {
                if has_entry(s, other) {
                    let x = choose|x: int| is_entry(s, other, x);
                    assert(t[x] == s[x]);
                    assert(is_entry(t, other, x));
                    self.lemma_held(x);
                    before.lemma_held(x);
                }
                if has_entry(t, other) {
                    let a = choose|a: int| is_entry(t, other, a);
                    assert(a < s.len());
                    assert(is_entry(s, other, a));
                }
            }
        }
    }
}

} // verus!
