//! Sorting by a strict weak order.

use vstd::prelude::*;

verus! {

/// A type with a strict weak order.
pub trait Ranked: Copy {
    spec fn before(self, other: Self) -> bool;

    fn is_before(&self, other: &Self) -> (r: bool)
        ensures
            r == self.before(*other),
    ;

    proof fn asymmetric(a: Self, b: Self)
        requires
            a.before(b),
        ensures
            !b.before(a),
    ;

    proof fn negatively_transitive(a: Self, b: Self, c: Self)
        requires
            !b.before(a),
            !c.before(b),
        ensures
            !c.before(a),
    ;
}

/// No element comes before one at an earlier index.
pub open spec fn is_sorted<T: Ranked>(s: Seq<T>) -> bool {
    forall|i: int, j: int| 0 <= i < j < s.len() ==> !(#[trigger] s[j]).before(#[trigger] s[i])
}

/// The same elements, each as often as before, in order.
pub open spec fn sorts<T: Ranked>(sorted: Seq<T>, unsorted: Seq<T>) -> bool {
    &&& is_sorted(sorted)
    &&& sorted.to_multiset() == unsorted.to_multiset()
}

fn insert_sorted<T: Ranked>(sorted: &mut Vec<T>, value: T)
    requires
        is_sorted(old(sorted)@),
    ensures
        is_sorted(final(sorted)@),
        final(sorted)@.to_multiset() == old(sorted)@.to_multiset().insert(value),
        final(sorted)@.len() == old(sorted)@.len() + 1,
{
    let mut at: usize = sorted.len();
    while at > 0 && value.is_before(&sorted[at - 1])
        invariant
            at <= sorted@.len(),
            is_sorted(sorted@),
            forall|i: int| at <= i < sorted@.len() ==> value.before(#[trigger] sorted@[i]),
        decreases at,
    {
        at = at - 1;
    }
    let ghost before = sorted@;
    proof {
        assert forall|i: int| 0 <= i < at implies !value.before(#[trigger] before[i]) by {
            if i < at - 1 {
                T::negatively_transitive(before[i], before[at - 1], value);
            }
        }
        assert forall|i: int| at <= i < before.len() implies !(#[trigger] before[i]).before(
            value,
        ) by {
            T::asymmetric(value, before[i]);
        }
    }
    sorted.insert(at, value);
    proof {
        broadcast use vstd::seq_lib::group_to_multiset_ensures;

        vstd::seq_lib::to_multiset_insert(before, at as int, value);
        let after = sorted@;
        assert forall|i: int, j: int| 0 <= i < j < after.len() implies !(#[trigger] after[j]).before(
            #[trigger] after[i],
        ) by {
            let left = if i < at { i } else { i - 1 };
            let right = if j < at { j } else { j - 1 };
            if i != at && j != at {
                assert(after[i] == before[left]);
                assert(after[j] == before[right]);
            } else if i == at {
                assert(after[j] == before[right]);
            } else {
                assert(after[i] == before[left]);
            }
        }
    }
}

/// The values in order.
pub fn sort<T: Ranked>(values: &Vec<T>) -> (sorted: Vec<T>)
    ensures
        sorts(sorted@, values@),
        sorted@.len() == values@.len(),
{
    let mut sorted: Vec<T> = Vec::new();
    let mut i: usize = 0;
    assert(values@.take(0) =~= Seq::<T>::empty());
    assert(sorted@ =~= values@.take(0));
    while i < values.len()
        invariant
            i <= values@.len(),
            is_sorted(sorted@),
            sorted@.to_multiset() == values@.take(i as int).to_multiset(),
            sorted@.len() == i,
        decreases values@.len() - i,
    {
        let value = values[i];
        insert_sorted(&mut sorted, value);
        proof {
            broadcast use vstd::seq_lib::group_to_multiset_ensures;

            assert(values@.take(i + 1) =~= values@.take(i as int).push(value));
        }
        i = i + 1;
    }
    assert(values@.take(i as int) =~= values@);
    sorted
}

/// Any two different elements are ordered.
pub open spec fn is_ranked<T: Ranked>(s: Seq<T>) -> bool {
    forall|i: int, j: int|
        0 <= i < s.len() && 0 <= j < s.len() ==> #[trigger] s[i] == #[trigger] s[j] || s[i].before(
            s[j],
        ) || s[j].before(s[i])
}

/// The elements in order.
pub open spec fn ordered<T: Ranked>(s: Seq<T>) -> Seq<T> {
    choose|t: Seq<T>| sorts(t, s)
}

/// Where any two different values are ordered, there is one way to sort.
pub proof fn lemma_ordered<T: Ranked>(t: Seq<T>, s: Seq<T>)
    requires
        sorts(t, s),
        is_ranked(s),
    ensures
        t == ordered(s),
{
    broadcast use vstd::seq_lib::group_to_multiset_ensures;

    let o = ordered(s);
    assert(sorts(o, s));
    assert(is_ranked(t)) by {
        assert forall|i: int, j: int| 0 <= i < t.len() && 0 <= j < t.len() implies #[trigger] t[i]
            == #[trigger] t[j] || t[i].before(t[j]) || t[j].before(t[i]) by {
            assert(t.to_multiset().contains(t[i])) by {
                assert(t.contains(t[i]));
            }
            assert(t.to_multiset().contains(t[j])) by {
                assert(t.contains(t[j]));
            }
            assert(s.contains(t[i]));
            assert(s.contains(t[j]));
            let k = choose|k: int| 0 <= k < s.len() && s[k] == t[i];
            let l = choose|l: int| 0 <= l < s.len() && s[l] == t[j];
            assert(s[k] == s[l] || s[k].before(s[l]) || s[l].before(s[k]));
        }
    }
    lemma_sorted_unique(t, o);
}

/// Where any two different values are ordered, two sorted sequences of the same values are the
/// same.
pub proof fn lemma_sorted_unique<T: Ranked>(a: Seq<T>, b: Seq<T>)
    requires
        is_sorted(a),
        is_sorted(b),
        a.to_multiset() == b.to_multiset(),
        is_ranked(a),
    ensures
        a == b,
    decreases a.len(),
{
    broadcast use vstd::seq_lib::group_to_multiset_ensures;

    assert(a.len() == a.to_multiset().len());
    assert(b.len() == b.to_multiset().len());
    if a.len() > 0 {
        let x = a.last();
        let y = b.last();
        assert(a.to_multiset().contains(x)) by {
            assert(a.contains(a[a.len() - 1]));
        }
        assert(b.contains(x));
        assert(b.to_multiset().contains(y)) by {
            assert(b.contains(b[b.len() - 1]));
        }
        assert(a.contains(y));
        let i = choose|i: int| 0 <= i < b.len() && b[i] == x;
        let j = choose|j: int| 0 <= j < a.len() && a[j] == y;
        assert(x == y) by {
            if x != y {
                assert(!y.before(x));
                assert(!x.before(y));
                assert(a[a.len() - 1] == x && a[j] == y);
            }
        }
        let c = a.drop_last();
        let d = b.drop_last();
        assert(c.push(x) =~= a);
        assert(d.push(x) =~= b);
        assert(c.to_multiset() =~= a.to_multiset().remove(x));
        assert(d.to_multiset() =~= b.to_multiset().remove(x));
        assert(is_sorted(c)) by {
            assert forall|i: int, j: int| 0 <= i < j < c.len() implies !(#[trigger] c[j]).before(
                #[trigger] c[i],
            ) by {
                assert(!a[j].before(a[i]));
            }
        }
        assert(is_sorted(d)) by {
            assert forall|i: int, j: int| 0 <= i < j < d.len() implies !(#[trigger] d[j]).before(
                #[trigger] d[i],
            ) by {
                assert(!b[j].before(b[i]));
            }
        }
        assert(is_ranked(c)) by {
            assert forall|i: int, j: int| 0 <= i < c.len() && 0 <= j < c.len() implies #[trigger] c[i]
                == #[trigger] c[j] || c[i].before(c[j]) || c[j].before(c[i]) by {
                assert(a[i] == c[i] && a[j] == c[j]);
            }
        }
        lemma_sorted_unique(c, d);
    } else {
        assert(a =~= b);
    }
}

} // verus!
