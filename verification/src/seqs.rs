//! Sequence operations the contracts are stated with.

use vstd::prelude::*;

verus! {

/// `i` is the first index whose element satisfies the predicate.
pub open spec fn is_first<A>(s: Seq<A>, p: spec_fn(A) -> bool, i: int) -> bool {
    &&& 0 <= i < s.len()
    &&& p(s[i])
    &&& forall|j: int| 0 <= j < i ==> !p(#[trigger] s[j])
}

/// The first element which satisfies the predicate.
pub open spec fn first<A>(s: Seq<A>, p: spec_fn(A) -> bool) -> Option<A> {
    if exists|i: int| is_first(s, p, i) {
        Some(s[choose|i: int| is_first(s, p, i)])
    } else {
        None
    }
}

pub proof fn lemma_first_found<A>(s: Seq<A>, p: spec_fn(A) -> bool, i: int)
    requires
        is_first(s, p, i),
    ensures
        first(s, p) == Some(s[i]),
{
    let j = choose|j: int| is_first(s, p, j);
    assert(is_first(s, p, j));
    if j < i {
        assert(!p(s[j]));
    } else if i < j {
        assert(!p(s[i]));
    }
}

pub proof fn lemma_first_absent<A>(s: Seq<A>, p: spec_fn(A) -> bool)
    requires
        forall|i: int| 0 <= i < s.len() ==> !p(#[trigger] s[i]),
    ensures
        first(s, p) is None,
{
    if exists|i: int| is_first(s, p, i) {
        let i = choose|i: int| is_first(s, p, i);
        assert(p(s[i]));
    }
}

/// What is found is an element which satisfies the predicate, and one is found if there is one.
pub proof fn lemma_first_some<A>(s: Seq<A>, p: spec_fn(A) -> bool)
    ensures
        first(s, p) matches Some(a) ==> p(a) && s.contains(a),
        first(s, p) is Some == (exists|i: int| 0 <= i < s.len() && p(#[trigger] s[i])),
{
    if exists|i: int| 0 <= i < s.len() && p(#[trigger] s[i]) {
        lemma_first_exists(s, p, choose|i: int| 0 <= i < s.len() && p(#[trigger] s[i]));
        let i = choose|i: int| is_first(s, p, i);
        assert(s.contains(s[i]));
    } else {
        lemma_first_absent(s, p);
    }
}

proof fn lemma_first_exists<A>(s: Seq<A>, p: spec_fn(A) -> bool, i: int)
    requires
        0 <= i < s.len(),
        p(s[i]),
    ensures
        exists|j: int| is_first(s, p, j),
    decreases i,
{
    if exists|j: int| 0 <= j < i && p(#[trigger] s[j]) {
        lemma_first_exists(s, p, choose|j: int| 0 <= j < i && p(#[trigger] s[j]));
    } else {
        assert(is_first(s, p, i));
    }
}

/// What a sequence contains once an element is appended.
pub proof fn lemma_contains_push<A>(s: Seq<A>, a: A, other: A)
    ensures
        s.push(a).contains(other) == (other == a || s.contains(other)),
{
    let all = s.push(a);
    assert(all[s.len() as int] == a);
    if s.contains(other) {
        let i = choose|i: int| 0 <= i < s.len() && s[i] == other;
        assert(all[i] == other);
    }
    if all.contains(other) && other != a {
        let i = choose|i: int| 0 <= i < all.len() && all[i] == other;
        assert(s[i] == other);
    }
}

/// What a sequence contains once another is appended.
pub proof fn lemma_contains_add<A>(s: Seq<A>, more: Seq<A>, other: A)
    ensures
        (s + more).contains(other) == (s.contains(other) || more.contains(other)),
{
    let all = s + more;
    if s.contains(other) {
        let i = choose|i: int| 0 <= i < s.len() && s[i] == other;
        assert(all[i] == other);
    }
    if more.contains(other) {
        let i = choose|i: int| 0 <= i < more.len() && more[i] == other;
        assert(all[s.len() + i] == other);
    }
    if all.contains(other) {
        let i = choose|i: int| 0 <= i < all.len() && all[i] == other;
        if i < s.len() {
            assert(s[i] == other);
        } else {
            assert(more[i - s.len()] == other);
        }
    }
}

/// One more element of a sequence being filtered.
pub proof fn lemma_filter_step<A>(s: Seq<A>, p: spec_fn(A) -> bool, i: int)
    requires
        0 <= i < s.len(),
    ensures
        s.take(i + 1).filter(p) == if p(s[i]) {
            s.take(i).filter(p).push(s[i])
        } else {
            s.take(i).filter(p)
        },
{
    reveal(Seq::filter);
    assert(s.take(i + 1).drop_last() =~= s.take(i));
}

pub proof fn lemma_filter_start<A>(s: Seq<A>, p: spec_fn(A) -> bool)
    ensures
        s.take(0).filter(p) == Seq::<A>::empty(),
        s.take(s.len() as int) == s,
{
    reveal(Seq::filter);
    assert(s.take(0) =~= Seq::<A>::empty());
    assert(s.take(s.len() as int) =~= s);
}

/// Every element of a filtered sequence is an element of the sequence which satisfies the
/// predicate, and every such element is kept.
pub proof fn lemma_filter_contains<A>(s: Seq<A>, p: spec_fn(A) -> bool, a: A)
    ensures
        s.filter(p).contains(a) == (s.contains(a) && p(a)),
    decreases s.len(),
{
    reveal(Seq::filter);
    if s.len() > 0 {
        let r = s.drop_last();
        lemma_filter_contains(r, p, a);
        assert(s =~= r.push(s.last()));
        lemma_contains_push(r, s.last(), a);
        lemma_contains_push(r.filter(p), s.last(), a);
    } else {
        assert(s.filter(p) =~= Seq::<A>::empty());
    }
}

/// Filtering distributes over concatenation.
pub proof fn lemma_filter_add<A>(a: Seq<A>, b: Seq<A>, p: spec_fn(A) -> bool)
    ensures
        (a + b).filter(p) == a.filter(p) + b.filter(p),
    decreases b.len(),
{
    reveal(Seq::filter);
    if b.len() == 0 {
        assert(a + b =~= a);
        assert(b.filter(p) =~= Seq::<A>::empty());
        assert(a.filter(p) + b.filter(p) =~= a.filter(p));
    } else {
        lemma_filter_add(a, b.drop_last(), p);
        assert((a + b).drop_last() =~= a + b.drop_last());
        assert((a + b).last() == b.last());
        assert((a + b).filter(p) =~= a.filter(p) + b.filter(p));
    }
}

/// Filtering by a predicate every element satisfies keeps everything.
pub proof fn lemma_filter_all<A>(s: Seq<A>, p: spec_fn(A) -> bool)
    requires
        forall|i: int| 0 <= i < s.len() ==> p(#[trigger] s[i]),
    ensures
        s.filter(p) == s,
    decreases s.len(),
{
    reveal(Seq::filter);
    if s.len() > 0 {
        let r = s.drop_last();
        assert forall|i: int| 0 <= i < r.len() implies p(#[trigger] r[i]) by {
            assert(p(s[i]));
        }
        lemma_filter_all(r, p);
        assert(p(s[s.len() - 1]));
        assert(r.push(s.last()) =~= s);
    } else {
        assert(s.filter(p) =~= s);
    }
}

/// Filtering by a predicate no element satisfies keeps nothing.
pub proof fn lemma_filter_none<A>(s: Seq<A>, p: spec_fn(A) -> bool)
    requires
        forall|i: int| 0 <= i < s.len() ==> !p(#[trigger] s[i]),
    ensures
        s.filter(p) == Seq::<A>::empty(),
    decreases s.len(),
{
    reveal(Seq::filter);
    if s.len() > 0 {
        let r = s.drop_last();
        assert forall|i: int| 0 <= i < r.len() implies !p(#[trigger] r[i]) by {
            assert(!p(s[i]));
        }
        lemma_filter_none(r, p);
        assert(!p(s[s.len() - 1]));
    } else {
        assert(s.filter(p) =~= Seq::<A>::empty());
    }
}

/// The elapsed time, none where the clock ran backwards.
pub open spec fn age(at: u128, since: u128) -> u128 {
    if at >= since {
        (at - since) as u128
    } else {
        0
    }
}

/// The elapsed time, none where the clock ran backwards.
pub fn elapsed(at: u128, since: u128) -> (r: u128)
    ensures
        r == age(at, since),
{
    if at >= since {
        at - since
    } else {
        0
    }
}

/// Filtering twice is filtering by both.
pub proof fn lemma_filter_twice<A>(
    s: Seq<A>,
    p: spec_fn(A) -> bool,
    q: spec_fn(A) -> bool,
    both: spec_fn(A) -> bool,
)
    requires
        forall|a: A| #[trigger] both(a) == (p(a) && q(a)),
    ensures
        s.filter(p).filter(q) == s.filter(both),
    decreases s.len(),
{
    reveal(Seq::filter);
    if s.len() > 0 {
        lemma_filter_twice(s.drop_last(), p, q, both);
        assert(both(s.last()) == (p(s.last()) && q(s.last())));
        if p(s.last()) {
            assert(s.filter(p).drop_last() =~= s.drop_last().filter(p));
        }
    } else {
        assert(s.filter(p).filter(q) =~= s.filter(both));
    }
}

/// The positions at which the predicate holds.
pub open spec fn positions<A>(s: Seq<A>, p: spec_fn(A) -> bool) -> Set<int> {
    Set::new(|i: int| 0 <= i < s.len() && p(s[i]))
}

/// Filtering keeps as many elements as there are positions at which the predicate holds.
pub proof fn lemma_filter_counts<A>(s: Seq<A>, p: spec_fn(A) -> bool)
    ensures
        positions(s, p).finite(),
        s.filter(p).len() == positions(s, p).len(),
    decreases s.len(),
{
    reveal(Seq::filter);
    if s.len() == 0 {
        assert(positions(s, p) =~= Set::empty());
    } else {
        let r = s.drop_last();
        lemma_filter_counts(r, p);
        let last = s.len() - 1;
        if p(s.last()) {
            assert(positions(s, p) =~= positions(r, p).insert(last));
            assert(!positions(r, p).contains(last));
        } else {
            assert(positions(s, p) =~= positions(r, p));
        }
    }
}

/// A filtered list without repetition is one too.
pub proof fn lemma_filter_no_duplicates<A>(s: Seq<A>, p: spec_fn(A) -> bool)
    requires
        s.no_duplicates(),
    ensures
        s.filter(p).no_duplicates(),
    decreases s.len(),
{
    reveal(Seq::filter);
    if s.len() > 0 {
        let r = s.drop_last();
        assert(r.no_duplicates()) by {
            assert forall|i: int, j: int| 0 <= i < r.len() && 0 <= j < r.len() && i != j implies r[i]
                != r[j] by {
                assert(s[i] != s[j]);
            }
        }
        lemma_filter_no_duplicates(r, p);
        if p(s.last()) {
            assert(!r.filter(p).contains(s.last())) by {
                lemma_filter_contains(r, p, s.last());
                if r.contains(s.last()) {
                    let i = r.index_of(s.last());
                    assert(s[i] != s[s.len() - 1]);
                }
            }
        }
    }
}

} // verus!
