//! Splitting a snapshot into frames of a bounded size.

use vstd::prelude::*;

use crate::wire::{encodings, Wire};

verus! {

/// The sequence in pieces of `n` elements, the last of which may be shorter.
pub open spec fn chunked<T>(s: Seq<T>, n: nat) -> Seq<Seq<T>>
    decreases s.len(),
    when n > 0
{
    if s.len() == 0 {
        Seq::empty()
    } else if s.len() <= n {
        seq![s]
    } else {
        seq![s.take(n as int)] + chunked(s.skip(n as int), n)
    }
}

/// The pieces one after the other.
pub open spec fn joined<T>(chunks: Seq<Seq<T>>) -> Seq<T>
    decreases chunks.len(),
{
    if chunks.len() == 0 {
        Seq::empty()
    } else {
        chunks[0] + joined(chunks.skip(1))
    }
}

/// Nothing is lost or reordered by splitting, and no piece is empty or longer than asked for.
pub proof fn chunks_join_to_the_whole<T>(s: Seq<T>, n: nat)
    requires
        n > 0,
    ensures
        joined(chunked(s, n)) == s,
        forall|i: int| 0 <= i < chunked(s, n).len() ==> 0 < (#[trigger] chunked(s, n)[i]).len() <= n,
        chunked(s, n).len() <= s.len(),
        s.len() > n ==> chunked(s, n).len() > 1,
    decreases s.len(),
{
    let chunks = chunked(s, n);
    if s.len() == 0 {
        assert(joined(chunks) =~= s);
    } else if s.len() <= n {
        assert(chunks.skip(1) =~= Seq::<Seq<T>>::empty());
        assert(joined(chunks.skip(1)) =~= Seq::<T>::empty());
        assert(joined(chunks) =~= s);
    } else {
        let rest = s.skip(n as int);
        chunks_join_to_the_whole(rest, n);
        assert(chunks.skip(1) =~= chunked(rest, n));
        assert(joined(chunks) =~= s);
        assert forall|i: int| 0 <= i < chunks.len() implies 0 < (#[trigger] chunks[i]).len() <= n by {
            if i > 0 {
                assert(chunks[i] == chunked(rest, n)[i - 1]);
            }
        }
    }
}

/// Every element of a piece is an element of the whole.
pub proof fn lemma_chunk_elements<T>(s: Seq<T>, n: nat, i: int, j: int)
    requires
        n > 0,
        0 <= i < chunked(s, n).len(),
        0 <= j < chunked(s, n)[i].len(),
    ensures
        s.contains(chunked(s, n)[i][j]),
    decreases s.len(),
{
    if s.len() <= n {
        assert(s[j] == chunked(s, n)[i][j]);
    } else if i == 0 {
        assert(s[j] == chunked(s, n)[i][j]);
    } else {
        let rest = s.skip(n as int);
        lemma_chunk_elements(rest, n, i - 1, j);
        let a = chunked(rest, n)[i - 1][j];
        let k = choose|k: int| 0 <= k < rest.len() && rest[k] == a;
        assert(s[n + k] == a);
    }
}

/// How many entries fit into a frame next to its envelope, and at least one.
pub open spec fn per_frame(max_frame_size: int, envelope_len: int, entry_len: int) -> nat {
    let fitting = if max_frame_size > envelope_len {
        (max_frame_size - envelope_len) / entry_len
    } else {
        0
    };
    if fitting < 1 {
        1
    } else {
        fitting as nat
    }
}

/// How many entries fit into a frame next to its envelope, and at least one.
pub fn entries_per_frame(max_frame_size: usize, envelope_len: usize, entry_len: usize) -> (n: usize)
    requires
        entry_len > 0,
    ensures
        n == per_frame(max_frame_size as int, envelope_len as int, entry_len as int),
        n > 0,
{
    let room: usize = max_frame_size.saturating_sub(envelope_len);
    let fitting: usize = room / entry_len;
    proof {
        if max_frame_size <= envelope_len {
            vstd::arithmetic::div_mod::lemma_basic_div(0, entry_len as int);
        }
    }
    if fitting < 1 {
        1
    } else {
        fitting
    }
}

pub open spec fn views<T>(chunks: Seq<Vec<T>>) -> Seq<Seq<T>> {
    chunks.map_values(|chunk: Vec<T>| chunk@)
}

/// The values in pieces of `n`.
pub fn chunks<T: Copy>(values: &Vec<T>, n: usize) -> (chunks: Vec<Vec<T>>)
    requires
        n > 0,
    ensures
        views(chunks@) == chunked(values@, n as nat),
{
    let mut chunks: Vec<Vec<T>> = Vec::new();
    let mut at: usize = 0;
    assert(values@.skip(0) =~= values@);
    assert(views(chunks@) + chunked(values@.skip(0), n as nat) =~= chunked(values@, n as nat));
    while at < values.len()
        invariant
            n > 0,
            at <= values@.len(),
            views(chunks@) + chunked(values@.skip(at as int), n as nat) == chunked(
                values@,
                n as nat,
            ),
        decreases values@.len() - at,
    {
        let len: usize = if values.len() - at < n {
            values.len() - at
        } else {
            n
        };
        let chunk = vstd::slice::slice_to_vec(
            vstd::slice::slice_subrange(values.as_slice(), at, at + len),
        );
        let ghost rest = values@.skip(at as int);
        let ghost before = views(chunks@);
        assert(chunk@ =~= rest.take(len as int));
        chunks.push(chunk);
        proof {
            assert(views(chunks@) =~= before.push(chunk@));
            assert(values@.skip(at + len) =~= rest.skip(len as int));
            if rest.len() <= n {
                assert(rest.take(len as int) =~= rest);
                assert(rest.skip(len as int) =~= Seq::empty());
                assert(chunked(rest, n as nat) =~= seq![rest]);
            }
            assert(before.push(chunk@) + chunked(rest.skip(len as int), n as nat) =~= before
                + chunked(rest, n as nat));
        }
        at = at + len;
    }
    assert(views(chunks@) + chunked(values@.skip(at as int), n as nat) =~= views(chunks@));
    chunks
}

/// Entries which are short enough fill a bounded number of bytes.
pub proof fn lemma_encodings_bound<T: Wire>(vs: Seq<T::V>, entry_len: nat)
    requires
        forall|i: int| 0 <= i < vs.len() ==> T::encoding(#[trigger] vs[i]).len() <= entry_len,
    ensures
        encodings::<T>(vs).len() <= vs.len() * entry_len,
    decreases vs.len(),
{
    if vs.len() > 0 {
        let rest = vs.drop_last();
        assert forall|i: int| 0 <= i < rest.len() implies T::encoding(#[trigger] rest[i]).len()
            <= entry_len by {
            assert(rest[i] == vs[i]);
        }
        lemma_encodings_bound::<T>(rest, entry_len);
        assert(T::encoding(vs[vs.len() - 1]).len() <= entry_len);
        assert(rest.len() * entry_len + entry_len == vs.len() * entry_len) by (nonlinear_arith)
            requires
                rest.len() + 1 == vs.len(),
        ;
    }
}

/// As many entries as fit next to the envelope stay within the frame.
pub proof fn lemma_per_frame_fits(max_frame_size: nat, envelope_len: nat, entry_len: nat, n: nat)
    requires
        entry_len > 0,
        envelope_len + entry_len <= max_frame_size,
        n <= per_frame(max_frame_size as int, envelope_len as int, entry_len as int),
    ensures
        envelope_len + n * entry_len <= max_frame_size,
{
    let room = max_frame_size - envelope_len;
    let fitting = room / entry_len as int;
    assert(fitting >= 1 && fitting * entry_len <= room) by (nonlinear_arith)
        requires
            fitting == room / entry_len as int,
            room >= entry_len,
            entry_len > 0,
    ;
    assert(n * entry_len <= fitting * entry_len) by (nonlinear_arith)
        requires
            n <= fitting,
            entry_len > 0,
    ;
}

/// A frame holds at least one entry, and as many as fit next to its envelope.
pub proof fn a_frame_is_filled(max_frame_size: nat, envelope_len: nat, entry_len: nat, n: nat)
    requires
        entry_len > 0,
        envelope_len + n * entry_len <= max_frame_size,
    ensures
        per_frame(max_frame_size as int, envelope_len as int, entry_len as int) >= 1,
        n <= per_frame(max_frame_size as int, envelope_len as int, entry_len as int),
{
    let room = max_frame_size - envelope_len;
    let fitting = room / entry_len as int;
    assert(n <= fitting) by (nonlinear_arith)
        requires
            fitting == room / entry_len as int,
            n * entry_len <= room,
            entry_len > 0,
    ;
    if room == 0 {
        assert(n == 0) by (nonlinear_arith)
            requires
                n * entry_len <= 0,
                entry_len > 0,
        ;
    }
}

/// A chunk is closed only once it is full: all but the last one hold as many elements as a chunk
/// can.
pub proof fn chunks_are_full<T>(s: Seq<T>, n: nat, i: int)
    requires
        n > 0,
        0 <= i < chunked(s, n).len(),
    ensures
        i < chunked(s, n).len() - 1 ==> chunked(s, n)[i].len() == n,
        0 < chunked(s, n)[i].len() <= n,
    decreases s.len(),
{
    if s.len() > n && i > 0 {
        chunks_are_full(s.skip(n as int), n, i - 1);
    }
}

} // verus!
