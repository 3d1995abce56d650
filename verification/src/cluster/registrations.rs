//! How a set of registrations travels: packed into as few frames as fit, and put together again
//! from whatever order they arrive in.

use vstd::prelude::*;

use crate::cluster::chunks::joined;
use crate::cluster::frame::{Frame, FrameModel};
use crate::cluster::receptionist::{WireRegistration, WireRegistrationModel};
use crate::table::{as_map, distinct, lemma_map_len, lemma_put, put, Ident, Table};
use crate::wire::{encodings, lemma_cap_values, lemma_varint_len, Wire};

verus! {

/// What a frame adds to its registrations.
pub const ENVELOPE_LEN: usize = 32;

/// A set of registrations as frames.
#[derive(Debug)]
pub struct Snapshot {
    pub version: u64,
    pub frames: Vec<Frame>,
}

pub open spec fn entry_len(entry: WireRegistrationModel) -> nat {
    WireRegistration::encoding(entry).len()
}

pub open spec fn total_len(entries: Seq<WireRegistrationModel>) -> nat {
    encodings::<WireRegistration>(entries).len()
}

/// The entries in order, each added to the open chunk unless that would exceed the budget. One
/// chunk is always open.
pub open spec fn packed(entries: Seq<WireRegistrationModel>, budget: nat) -> Seq<
    Seq<WireRegistrationModel>,
>
    decreases entries.len(),
{
    if entries.len() == 0 {
        seq![Seq::empty()]
    } else {
        let chunks = packed(entries.drop_last(), budget);
        let open = chunks.last();
        let entry = entries.last();
        if open.len() > 0 && total_len(open) + entry_len(entry) > budget {
            chunks.push(seq![entry])
        } else {
            chunks.update(chunks.len() - 1, open.push(entry))
        }
    }
}

pub open spec fn frame_budget(max_frame_size: usize) -> nat {
    if max_frame_size > ENVELOPE_LEN {
        (max_frame_size - ENVELOPE_LEN) as nat
    } else {
        0
    }
}

/// One frame per chunk, each naming its place.
pub open spec fn registration_frames(version: u64, chunks: Seq<Seq<WireRegistrationModel>>) -> Seq<
    FrameModel,
> {
    Seq::new(
        chunks.len(),
        |i: int|
            FrameModel::Registrations {
                version,
                chunk: i as u32,
                chunks: chunks.len() as u32,
                entries: chunks[i],
            },
    )
}

proof fn lemma_total_push(entries: Seq<WireRegistrationModel>, entry: WireRegistrationModel)
    ensures
        total_len(entries.push(entry)) == total_len(entries) + entry_len(entry),
        total_len(Seq::empty()) == 0,
        total_len(seq![entry]) == entry_len(entry),
{
    assert(entries.push(entry).drop_last() =~= entries);
    let none = Seq::<WireRegistrationModel>::empty();
    assert(encodings::<WireRegistration>(none) =~= Seq::<u8>::empty());
    assert(seq![entry].drop_last() =~= none);
}

proof fn lemma_packed_nonempty(entries: Seq<WireRegistrationModel>, budget: nat)
    ensures
        packed(entries, budget).len() > 0,
        packed(entries, budget).len() <= if entries.len() == 0 { 1 } else { entries.len() },
    decreases entries.len(),
{
    if entries.len() > 0 {
        lemma_packed_nonempty(entries.drop_last(), budget);
        if entries.len() == 1 {
            assert(packed(entries.drop_last(), budget) =~= seq![
                Seq::<WireRegistrationModel>::empty(),
            ]);
        }
    }
}

proof fn lemma_joined_push<T>(chunks: Seq<Seq<T>>, chunk: Seq<T>)
    ensures
        joined(chunks.push(chunk)) == joined(chunks) + chunk,
    decreases chunks.len(),
{
    if chunks.len() == 0 {
        assert(chunks.push(chunk).skip(1) =~= Seq::<Seq<T>>::empty());
        assert(joined(chunks.push(chunk).skip(1)) =~= Seq::<T>::empty());
        assert(joined(chunks.push(chunk)) =~= joined(chunks) + chunk);
    } else {
        lemma_joined_push(chunks.skip(1), chunk);
        assert(chunks.push(chunk).skip(1) =~= chunks.skip(1).push(chunk));
        assert(joined(chunks.push(chunk)) =~= joined(chunks) + chunk);
    }
}

/// Nothing is lost or reordered by packing.
pub proof fn packing_keeps_the_entries(entries: Seq<WireRegistrationModel>, budget: nat)
    ensures
        packed(entries, budget).len() > 0,
        joined(packed(entries, budget)) == entries,
    decreases entries.len(),
{
    lemma_packed_nonempty(entries, budget);
    if entries.len() == 0 {
        let one = packed(entries, budget);
        assert(one.skip(1) =~= Seq::<Seq<WireRegistrationModel>>::empty());
        assert(joined(one.skip(1)) =~= Seq::<WireRegistrationModel>::empty());
        assert(joined(one) =~= entries);
    } else {
        let rest = entries.drop_last();
        let entry = entries.last();
        packing_keeps_the_entries(rest, budget);
        let chunks = packed(rest, budget);
        let open = chunks.last();
        let closed = chunks.drop_last();
        assert(closed.push(open) =~= chunks);
        lemma_joined_push(closed, open);
        if open.len() > 0 && total_len(open) + entry_len(entry) > budget {
            lemma_joined_push(chunks, seq![entry]);
            assert(joined(packed(entries, budget)) =~= entries);
        } else {
            assert(chunks.update(chunks.len() - 1, open.push(entry)) =~= closed.push(
                open.push(entry),
            ));
            lemma_joined_push(closed, open.push(entry));
            assert(joined(closed) + open.push(entry) =~= (joined(closed) + open).push(entry));
            assert(rest.push(entry) =~= entries);
        }
    }
}

/// A chunk exceeds the budget only where a single entry does.
pub proof fn chunks_stay_within_the_budget(
    entries: Seq<WireRegistrationModel>,
    budget: nat,
    i: int,
)
    requires
        0 <= i < packed(entries, budget).len(),
        forall|j: int| 0 <= j < entries.len() ==> entry_len(#[trigger] entries[j]) <= budget,
    ensures
        total_len(packed(entries, budget)[i]) <= budget,
    decreases entries.len(),
{
    if entries.len() > 0 {
        let rest = entries.drop_last();
        let entry = entries.last();
        lemma_packed_nonempty(rest, budget);
        assert forall|j: int| 0 <= j < rest.len() implies entry_len(#[trigger] rest[j])
            <= budget by {
            assert(rest[j] == entries[j]);
        }
        assert(entry_len(entries[entries.len() - 1]) <= budget);
        let chunks = packed(rest, budget);
        if i < chunks.len() {
            chunks_stay_within_the_budget(rest, budget, i);
        }
        let open = chunks.last();
        if open.len() == 0 {
            assert(open =~= Seq::<WireRegistrationModel>::empty());
        }
        lemma_total_push(open, entry);
    }
}

/// Every frame of a set of registrations fits the frame size, provided that each registration fits
/// a frame of its own.
pub proof fn registration_frames_fit(
    version: u64,
    entries: Seq<WireRegistrationModel>,
    max_frame_size: usize,
    i: int,
)
    requires
        0 <= i < packed(entries, frame_budget(max_frame_size)).len() <= u32::MAX,
        entries.len() <= u64::MAX,
        forall|j: int|
            0 <= j < entries.len() ==> entry_len(#[trigger] entries[j]) + ENVELOPE_LEN
                <= max_frame_size,
        max_frame_size >= ENVELOPE_LEN,
    ensures
        Frame::encoding(
            registration_frames(version, packed(entries, frame_budget(max_frame_size)))[i],
        ).len() <= max_frame_size,
{
    let budget = frame_budget(max_frame_size);
    let chunks = packed(entries, budget);
    assert forall|j: int| 0 <= j < entries.len() implies entry_len(#[trigger] entries[j])
        <= budget by {}
    chunks_stay_within_the_budget(entries, budget, i);
    lemma_chunk_len(entries, budget, i);
    lemma_cap_values();
    lemma_varint_len(12, 0, 127);
    lemma_varint_len(version as nat, 9, 1);
    lemma_varint_len(i as nat, 4, 15);
    lemma_varint_len(chunks.len(), 4, 15);
    lemma_varint_len(chunks[i].len(), 9, 1);
}

proof fn lemma_chunk_len(entries: Seq<WireRegistrationModel>, budget: nat, i: int)
    requires
        0 <= i < packed(entries, budget).len(),
    ensures
        packed(entries, budget)[i].len() <= entries.len(),
    decreases entries.len(),
{
    if entries.len() > 0 {
        lemma_packed_nonempty(entries.drop_last(), budget);
        let chunks = packed(entries.drop_last(), budget);
        if i < chunks.len() {
            lemma_chunk_len(entries.drop_last(), budget, i);
        }
        lemma_chunk_len(entries.drop_last(), budget, chunks.len() - 1);
    }
}

fn encoded_len(entry: &WireRegistration) -> (len: usize)
    ensures
        len == entry_len(entry.deep_view()),
{
    let mut bytes: Vec<u8> = Vec::new();
    entry.put(&mut bytes);
    assert(bytes@ =~= WireRegistration::encoding(entry.deep_view()));
    bytes.len()
}

/// How long a frame with this registration alone is at most, up to what can be counted.
pub open spec fn spec_framed_len(entry: WireRegistrationModel) -> nat {
    if entry_len(entry) + ENVELOPE_LEN <= usize::MAX {
        entry_len(entry) + ENVELOPE_LEN as nat
    } else {
        usize::MAX as nat
    }
}

/// How long a frame with this registration alone is at most.
pub fn framed_len(entry: &WireRegistration) -> (len: usize)
    ensures
        len == spec_framed_len(entry.deep_view()),
{
    let len: usize = encoded_len(entry);
    if len <= usize::MAX - ENVELOPE_LEN {
        len + ENVELOPE_LEN
    } else {
        usize::MAX
    }
}

pub open spec fn entry_views(chunks: Seq<Vec<WireRegistration>>) -> Seq<
    Seq<WireRegistrationModel>,
> {
    chunks.map_values(|chunk: Vec<WireRegistration>| chunk.deep_view())
}

fn pack(entries: Vec<WireRegistration>, budget: usize) -> (chunks: Vec<Vec<WireRegistration>>)
    ensures
        entry_views(chunks@) == packed(entries.deep_view(), budget as nat),
{
    let ghost all = entries.deep_view();
    let mut rest = entries;
    let mut closed: Vec<Vec<WireRegistration>> = Vec::new();
    let mut open: Vec<WireRegistration> = Vec::new();
    let mut used: usize = 0;
    let ghost mut seen: int = 0;
    assert(open.deep_view() =~= Seq::empty());
    assert(all.take(0) =~= Seq::empty());
    assert(entry_views(closed@).push(open.deep_view()) =~= packed(all.take(0), budget as nat));
    assert(rest.deep_view() =~= all.skip(0));
    while rest.len() > 0
        invariant
            0 <= seen <= all.len(),
            rest.deep_view() =~= all.skip(seen),
            used == total_len(open.deep_view()),
            entry_views(closed@).push(open.deep_view()) == packed(all.take(seen), budget as nat),
        decreases rest@.len(),
    {
        let ghost before = rest.deep_view();
        let ghost chunks = packed(all.take(seen), budget as nat);
        assert(rest@.len() == before.len());
        assert(before[0] == all[seen]);
        let entry = rest.remove(0);
        let ghost model = entry.deep_view();
        let ghost opened = open.deep_view();
        proof {
            assert(rest.deep_view() =~= before.remove(0));
            assert(before.remove(0) =~= all.skip(seen + 1));
            assert(all.take(seen + 1).drop_last() =~= all.take(seen));
            assert(all.take(seen + 1).last() == model);
            assert(chunks.last() == opened);
            lemma_total_push(opened, model);
            if opened.len() == 0 {
                assert(opened =~= Seq::<WireRegistrationModel>::empty());
            }
        }
        let len: usize = encoded_len(&entry);
        let fits = used <= budget && len <= budget - used;
        if open.len() > 0 && !fits {
            let ghost closed_before = entry_views(closed@);
            let mut full: Vec<WireRegistration> = Vec::new();
            full.push(entry);
            std::mem::swap(&mut open, &mut full);
            closed.push(full);
            used = len;
            proof {
                assert(open.deep_view() =~= seq![model]);
                assert(entry_views(closed@) =~= closed_before.push(opened));
            }
        } else {
            open.push(entry);
            used = used + len;
            proof {
                assert(open.deep_view() =~= opened.push(model));
                assert(entry_views(closed@).push(open.deep_view()) =~= chunks.update(
                    chunks.len() - 1,
                    opened.push(model),
                ));
            }
        }
        proof {
            seen = seen + 1;
        }
    }
    let ghost closed_before = entry_views(closed@);
    let ghost opened = open.deep_view();
    closed.push(open);
    assert(entry_views(closed@) =~= closed_before.push(opened));
    assert(all.take(seen) =~= all);
    closed
}

/// The frames which carry the set under the given version; an empty set is one frame.
pub fn snapshot(version: u64, entries: Vec<WireRegistration>, max_frame_size: usize) -> (snapshot:
    Snapshot)
    requires
        packed(entries.deep_view(), frame_budget(max_frame_size)).len() <= u32::MAX,
    ensures
        snapshot.version == version,
        snapshot.frames.deep_view() == registration_frames(
            version,
            packed(entries.deep_view(), frame_budget(max_frame_size)),
        ),
{
    let budget: usize = max_frame_size.saturating_sub(ENVELOPE_LEN);
    let ghost all = packed(entries.deep_view(), budget as nat);
    let ghost expected = registration_frames(version, all);
    let mut chunks = pack(entries, budget);
    let count: u32 = chunks.len() as u32;
    let mut frames: Vec<Frame> = Vec::new();
    assert(entry_views(chunks@) =~= all.skip(0));
    while chunks.len() > 0
        invariant
            all.len() <= u32::MAX,
            count == all.len(),
            expected == registration_frames(version, all),
            frames@.len() + chunks@.len() == all.len(),
            entry_views(chunks@) == all.skip(frames@.len() as int),
            frames.deep_view() =~= expected.take(frames@.len() as int),
        decreases chunks@.len(),
    {
        let ghost before = frames.deep_view();
        let ghost at = frames@.len() as int;
        let ghost pending = entry_views(chunks@);
        assert(pending[0] == all[at]);
        let entries = chunks.remove(0);
        assert(entries.deep_view() == all[at]);
        let chunk: u32 = frames.len() as u32;
        frames.push(Frame::Registrations { version, chunk, chunks: count, entries });
        proof {
            assert(frames.deep_view() =~= before.push(expected[at]));
            assert(expected.take(at + 1) =~= expected.take(at).push(expected[at]));
            assert(entry_views(chunks@) =~= pending.remove(0));
            assert(pending.remove(0) =~= all.skip(at + 1));
        }
    }
    assert(expected.take(all.len() as int) =~= expected);
    Snapshot { version, frames }
}

impl Ident for u32 {
    fn same(&self, other: &Self) -> (r: bool) {
        *self == *other
    }
}

/// The chunks of one version received so far.
#[derive(Debug)]
pub struct Partial {
    pub version: u64,
    pub chunks: u32,
    pub received: Table<u32, Vec<WireRegistration>>,
}

#[verifier::ext_equal]
pub ghost struct PartialModel {
    pub version: u64,
    pub chunks: u32,
    pub received: Map<u32, Seq<WireRegistrationModel>>,
}

impl View for Partial {
    type V = PartialModel;

    open spec fn view(&self) -> PartialModel {
        PartialModel {
            version: self.version,
            chunks: self.chunks,
            received: self.received.map().map_values(|v: Vec<WireRegistration>| v.deep_view()),
        }
    }
}

impl PartialModel {
    pub open spec fn wf(self) -> bool {
        &&& self.received.dom().finite()
        &&& forall|i: u32| #[trigger] self.received.dom().contains(i) ==> i < self.chunks
    }

    pub open spec fn is_complete(self) -> bool {
        self.received.dom().len() == self.chunks
    }

    /// All the chunks one after the other.
    pub open spec fn entries(self) -> Seq<WireRegistrationModel> {
        joined(Seq::new(self.chunks as nat, |i: int| self.received[i as u32]))
    }

    /// A chunk received before stands.
    pub open spec fn with(self, chunk: u32, entries: Seq<WireRegistrationModel>) -> PartialModel {
        if self.received.dom().contains(chunk) {
            self
        } else {
            PartialModel { received: self.received.insert(chunk, entries), ..self }
        }
    }
}

/// A chunk is looked at: it is well-formed, newer than what is held, and not of a version which the
/// one being received supersedes.
pub open spec fn is_awaited(
    partial: Option<PartialModel>,
    applied: Option<u64>,
    version: u64,
    chunk: u32,
    chunks: u32,
) -> bool {
    &&& chunk < chunks
    &&& applied matches Some(applied) ==> applied < version
    &&& partial matches Some(open) ==> open.version <= version
}

/// What is held of a set of registrations after another chunk, and the set once it is complete. A
/// newer version supersedes an older one, and a version whose chunk count changes is dropped.
pub open spec fn collected(
    partial: Option<PartialModel>,
    applied: Option<u64>,
    version: u64,
    chunk: u32,
    chunks: u32,
    entries: Seq<WireRegistrationModel>,
) -> (Option<PartialModel>, Option<Seq<WireRegistrationModel>>) {
    let superseding = PartialModel { version, chunks, received: map![chunk => entries] };
    let open = match partial {
        Some(open) => if open.version == version {
            open.with(chunk, entries)
        } else {
            superseding
        },
        None => superseding,
    };
    if !is_awaited(partial, applied, version, chunk, chunks) {
        (partial, None)
    } else if open.chunks != chunks {
        (None, None)
    } else if open.is_complete() {
        (None, Some(open.entries()))
    } else {
        (Some(open), None)
    }
}

pub open spec fn partial_view(partial: Option<Partial>) -> Option<PartialModel> {
    match partial {
        Some(open) => Some(open@),
        None => None,
    }
}

pub open spec fn partial_wf(partial: Option<Partial>) -> bool {
    partial matches Some(open) ==> open.received.wf() && open@.wf()
}

proof fn lemma_received_insert(
    table: Seq<(u32, Vec<WireRegistration>)>,
    chunk: u32,
    entries: Vec<WireRegistration>,
)
    requires
        distinct(table),
    ensures
        as_map(put(table, chunk, entries)).map_values(
            |v: Vec<WireRegistration>| v.deep_view(),
        ) == as_map(table).map_values(|v: Vec<WireRegistration>| v.deep_view()).insert(
            chunk,
            entries.deep_view(),
        ),
{
    lemma_put(table, chunk, entries);
    assert(as_map(put(table, chunk, entries)).map_values(
        |v: Vec<WireRegistration>| v.deep_view(),
    ) =~= as_map(table).map_values(|v: Vec<WireRegistration>| v.deep_view()).insert(
        chunk,
        entries.deep_view(),
    ));
}

/// As many chunks as there are, none beyond the count: every one of them is there.
proof fn lemma_all_received(open: PartialModel, i: u32)
    requires
        open.wf(),
        open.is_complete(),
        i < open.chunks,
    ensures
        open.received.dom().contains(i),
{
    if !open.received.dom().contains(i) {
        lemma_below(open.received.dom(), open.chunks as nat, i);
    }
}

proof fn lemma_below(s: Set<u32>, n: nat, hole: u32)
    requires
        s.finite(),
        n <= u32::MAX,
        forall|x: u32| #[trigger] s.contains(x) ==> x < n,
        hole < n,
        !s.contains(hole),
    ensures
        s.len() < n,
    decreases n,
{
    let top = (n - 1) as u32;
    if hole == top {
        lemma_at_most(s, top as nat);
    } else {
        let rest = s.remove(top);
        lemma_below(rest, (n - 1) as nat, hole);
    }
}

proof fn lemma_at_most(s: Set<u32>, n: nat)
    requires
        s.finite(),
        n <= u32::MAX,
        forall|x: u32| #[trigger] s.contains(x) ==> x < n,
    ensures
        s.len() <= n,
    decreases n,
{
    if n == 0 {
        assert(s =~= Set::empty());
    } else {
        lemma_at_most(s.remove((n - 1) as u32), (n - 1) as nat);
    }
}

/// Takes the chunks apart in order.
fn assemble(open: Partial) -> (entries: Vec<WireRegistration>)
    requires
        open.received.wf(),
        open@.wf(),
        open@.is_complete(),
    ensures
        entries.deep_view() == open@.entries(),
{
    let ghost all = Seq::new(open@.chunks as nat, |i: int| open@.received[i as u32]);
    let mut received = open.received;
    let mut entries: Vec<WireRegistration> = Vec::new();
    let mut i: u32 = 0;
    assert(entries.deep_view() =~= Seq::empty());
    assert(all.take(0) =~= Seq::<Seq<WireRegistrationModel>>::empty());
    assert(joined(all.take(0)) =~= Seq::<WireRegistrationModel>::empty());
    proof {
        assert forall|k: u32| 0 <= k < open.chunks implies #[trigger] received.map().dom().contains(
            k,
        ) && received.map()[k].deep_view() == open@.received[k] by {
            lemma_all_received(open@, k);
        }
    }
    while i < open.chunks
        invariant
            open@.wf(),
            open@.is_complete(),
            i <= open.chunks,
            received.wf(),
            all == Seq::new(open@.chunks as nat, |i: int| open@.received[i as u32]),
            forall|k: u32|
                i <= k < open.chunks ==> #[trigger] received.map().dom().contains(k)
                    && received.map()[k].deep_view() == open@.received[k],
            entries.deep_view() == joined(all.take(i as int)),
        decreases open.chunks - i,
    {
        let ghost before = entries@;
        let ghost held = received.map();
        assert(held.dom().contains(i));
        if let Some(mut chunk) = received.remove(i) {
            let ghost added = chunk@;
            entries.append(&mut chunk);
            proof {
                assert(entries@ =~= before + added);
                assert(all[i as int] == held[i].deep_view());
                assert(entries.deep_view() =~= joined(all.take(i as int)) + all[i as int]);
                assert(all.take(i + 1) =~= all.take(i as int).push(all[i as int]));
                lemma_joined_push(all.take(i as int), all[i as int]);
            }
        }
        i = i + 1;
    }
    assert(all.take(i as int) =~= all);
    entries
}

/// Takes up another chunk of a peer's set, and hands out the set once it is complete.
pub fn collect(
    partial: &mut Option<Partial>,
    applied: Option<u64>,
    version: u64,
    chunk: u32,
    chunks: u32,
    entries: Vec<WireRegistration>,
) -> (complete: Option<Vec<WireRegistration>>)
    requires
        partial_wf(*old(partial)),
    ensures
        partial_wf(*final(partial)),
        partial_view(*final(partial)) == collected(
            partial_view(*old(partial)),
            applied,
            version,
            chunk,
            chunks,
            entries.deep_view(),
        ).0,
        complete is Some == collected(
            partial_view(*old(partial)),
            applied,
            version,
            chunk,
            chunks,
            entries.deep_view(),
        ).1 is Some,
        complete matches Some(set) ==> Some(set.deep_view()) == collected(
            partial_view(*old(partial)),
            applied,
            version,
            chunk,
            chunks,
            entries.deep_view(),
        ).1,
{
    if chunks == 0 || chunk >= chunks {
        return None;
    }
    if let Some(applied) = applied {
        if version <= applied {
            return None;
        }
    }
    let supersedes = match partial {
        Some(open) => {
            if open.version > version {
                return None;
            }
            open.version < version
        },
        None => true,
    };
    let ghost start = partial_view(*partial);
    let mut held: Option<Partial> = None;
    std::mem::swap(partial, &mut held);
    let open = match held {
        Some(open) if !supersedes => {
            let mut open = open;
            if open.chunks != chunks {
                return None;
            }
            if !open.received.contains_key(chunk) {
                proof {
                    lemma_received_insert(open.received@, chunk, entries);
                    assert(open@.with(chunk, entries.deep_view()).wf());
                }
                open.received.insert(chunk, entries);
            }
            open
        },
        _ => {
            let mut received: Table<u32, Vec<WireRegistration>> = Table::new();
            proof {
                lemma_received_insert(received@, chunk, entries);
            }
            received.insert(chunk, entries);
            let open = Partial { version, chunks, received };
            assert(open@.received =~= map![chunk => entries.deep_view()]);
            open
        },
    };
    proof {
        lemma_map_len(open.received@);
        assert(open@.received.dom() =~= as_map(open.received@).dom());
    }
    if open.received.len() as u64 == chunks as u64 {
        Some(assemble(open))
    } else {
        *partial = Some(open);
        None
    }
}

/// The chunks held stem from the given split of a set.
pub open spec fn is_part_of(
    open: PartialModel,
    version: u64,
    split: Seq<Seq<WireRegistrationModel>>,
) -> bool {
    &&& open.version == version
    &&& open.chunks == split.len()
    &&& forall|i: u32| #[trigger]
        open.received.dom().contains(i) ==> i < split.len() && open.received[i] == split[i as int]
}

/// Whatever the order the frames of a set arrive in, and however often, what is handed out is that
/// set and nothing else.
pub proof fn a_complete_set_is_the_one_sent(
    partial: Option<PartialModel>,
    applied: Option<u64>,
    version: u64,
    split: Seq<Seq<WireRegistrationModel>>,
    chunk: u32,
)
    requires
        0 < split.len() <= u32::MAX,
        chunk < split.len(),
        partial matches Some(open) ==> open.wf() && (open.version == version ==> is_part_of(
            open,
            version,
            split,
        )),
    ensures
        ({
            let (after, complete) = collected(
                partial,
                applied,
                version,
                chunk,
                split.len() as u32,
                split[chunk as int],
            );
            &&& complete matches Some(entries) ==> entries == joined(split)
            &&& is_awaited(partial, applied, version, chunk, split.len() as u32) ==> {
                &&& complete is None ==> (after matches Some(open) && is_part_of(
                    open,
                    version,
                    split,
                ) && open.received.dom().contains(chunk))
                &&& complete is Some ==> after is None
            }
        }),
{
    let chunks = split.len() as u32;
    let entries = split[chunk as int];
    let superseding = PartialModel { version, chunks, received: map![chunk => entries] };
    let open = match partial {
        Some(open) => if open.version == version {
            open.with(chunk, entries)
        } else {
            superseding
        },
        None => superseding,
    };
    assert(is_part_of(open, version, split));
    assert(open.wf());
    if is_awaited(partial, applied, version, chunk, chunks) && open.is_complete() {
        let all = Seq::new(open.chunks as nat, |i: int| open.received[i as u32]);
        assert(all =~= split) by {
            assert forall|i: int| 0 <= i < all.len() implies all[i] == split[i] by {
                lemma_all_received(open, i as u32);
            }
        }
    }
}

/// The last missing chunk completes the set.
pub proof fn the_last_chunk_completes_the_set(
    open: PartialModel,
    version: u64,
    split: Seq<Seq<WireRegistrationModel>>,
    chunk: u32,
)
    requires
        0 < split.len() <= u32::MAX,
        chunk < split.len(),
        open.wf(),
        is_part_of(open, version, split),
        !open.received.dom().contains(chunk),
        forall|i: u32| i < split.len() && i != chunk ==> #[trigger] open.received.dom().contains(i),
    ensures
        collected(
            Some(open),
            None,
            version,
            chunk,
            split.len() as u32,
            split[chunk as int],
        ).1 == Some(joined(split)),
{
    let after = open.with(chunk, split[chunk as int]);
    assert forall|i: u32| i < split.len() implies #[trigger] after.received.dom().contains(i) by {
        if i != chunk {
            assert(open.received.dom().contains(i));
        }
    }
    lemma_all_below(after.received.dom(), split.len());
    a_complete_set_is_the_one_sent(Some(open), None, version, split, chunk);
}

proof fn lemma_all_below(s: Set<u32>, n: nat)
    requires
        s.finite(),
        n <= u32::MAX,
        forall|x: u32| #[trigger] s.contains(x) == (x < n),
    ensures
        s.len() == n,
    decreases n,
{
    if n == 0 {
        assert(s =~= Set::empty());
    } else {
        lemma_all_below(s.remove((n - 1) as u32), (n - 1) as nat);
    }
}

/// A chunk is closed only where the next entry does not fit into it: but for an empty set, every
/// chunk holds an entry, and the first one of the chunk behind it would exceed the budget.
pub proof fn chunks_are_packed_tight(entries: Seq<WireRegistrationModel>, budget: nat, i: int)
    requires
        entries.len() > 0,
        0 <= i < packed(entries, budget).len(),
    ensures
        packed(entries, budget)[i].len() > 0,
        i + 1 < packed(entries, budget).len() ==> total_len(packed(entries, budget)[i]) + entry_len(
            packed(entries, budget)[i + 1][0],
        ) > budget,
    decreases entries.len(),
{
    let rest = entries.drop_last();
    let entry = entries.last();
    lemma_packed_nonempty(rest, budget);
    let chunks = packed(rest, budget);
    let open = chunks.last();
    if rest.len() == 0 {
        assert(chunks =~= seq![Seq::empty()]);
    } else {
        chunks_are_packed_tight(rest, budget, chunks.len() - 1);
        if i < chunks.len() {
            chunks_are_packed_tight(rest, budget, i);
        }
    }
}

/// A chunk is taken if it is of a set which is newer than the one applied and not older than the one
/// being received, and if its place is one of the set's.
pub proof fn an_awaited_chunk_is_newer(
    partial: Option<PartialModel>,
    applied: Option<u64>,
    version: u64,
    chunk: u32,
    chunks: u32,
    entries: Seq<WireRegistrationModel>,
)
    ensures
        ({
            let stale = (applied is Some && version <= applied->0) || (partial is Some && version
                < partial->0.version);
            let (after, set) = collected(partial, applied, version, chunk, chunks, entries);
            &&& stale || chunk >= chunks ==> after == partial && set is None
            &&& !stale && chunk < chunks && (partial is None || partial->0.version < version) ==> {
                &&& chunks == 1 ==> after is None && set == Some(entries)
                &&& chunks > 1 ==> set is None && after == Some(
                    PartialModel { version, chunks, received: map![chunk => entries] },
                )
            }
            &&& !stale && chunk < chunks && partial is Some && partial->0.version == version
                && partial->0.chunks != chunks ==> after is None && set is None
        }),
{
    let received: Map<u32, Seq<WireRegistrationModel>> = map![chunk => entries];
    let open = PartialModel { version, chunks, received };
    assert(received.dom() =~= set![chunk]);
    if chunks == 1 && chunk < chunks {
        let all = Seq::new(open.chunks as nat, |i: int| open.received[i as u32]);
        assert(all =~= seq![entries]);
        assert(all.skip(1) =~= Seq::<Seq<WireRegistrationModel>>::empty());
        assert(joined(all.skip(1)) =~= Seq::<WireRegistrationModel>::empty());
        assert(joined(all) =~= entries);
    }
}

} // verus!
