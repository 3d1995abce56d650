//! A store in memory, for testing event-sourced actors.

use vstd::prelude::*;

use crate::book::Book;
use crate::persistence::store::{AppendError, EncodedEvent, EncodedModel, EncodedSnapshot,
    PersistenceId, PersistenceIdModel, SeqNo, StoredEvent, StoredEventModel, StoredSnapshot,
    StoredSnapshotModel};

verus! {

/// Event streams and snapshots, lost with the process.
#[derive(Debug)]
pub struct InMemoryStore {
    pub streams: Book<PersistenceId, Vec<StoredEvent>>,
    pub snapshots: Book<PersistenceId, StoredSnapshot>,
}

pub open spec fn stored_views(events: Seq<StoredEvent>) -> Seq<StoredEventModel> {
    events.map_values(|e: StoredEvent| e@)
}

pub open spec fn encoded_views(events: Seq<EncodedEvent>) -> Seq<EncodedModel> {
    events.map_values(|e: EncodedEvent| e@)
}

/// Events at consecutive positions.
pub open spec fn numbered(events: Seq<EncodedModel>, from: int) -> Seq<StoredEventModel> {
    Seq::new(
        events.len(),
        |i: int| StoredEventModel { seq_no: SeqNo((from + i) as u64), event: events[i] },
    )
}

/// Every event is where its position says, without a gap.
pub open spec fn is_gapless(events: Seq<StoredEventModel>) -> bool {
    forall|i: int| 0 <= i < events.len() ==> (#[trigger] events[i]).seq_no.0 == i
}

pub open spec fn least(a: int, b: int) -> int {
    if a <= b {
        a
    } else {
        b
    }
}

/// A stream after an append, and whether it succeeds: only where the stream ends can it go on.
pub open spec fn appending(
    stream: Seq<StoredEventModel>,
    next_seq_no: SeqNo,
    events: Seq<EncodedModel>,
) -> (Seq<StoredEventModel>, Result<(), AppendError>) {
    if stream.len() == next_seq_no.0 {
        (stream + numbered(events, next_seq_no.0 as int), Ok(()))
    } else {
        (stream, Err(AppendError::Conflict))
    }
}

/// At most so many events of a stream, from the given position on.
pub open spec fn reading(stream: Seq<StoredEventModel>, from_seq_no: SeqNo, limit: int) -> Seq<
    StoredEventModel,
> {
    let start = least(from_seq_no.0 as int, stream.len() as int);
    stream.subrange(start, least(start + limit, stream.len() as int))
}

/// An [InMemoryStore] by value: what every ID has, be it nothing.
#[verifier::ext_equal]
pub ghost struct InMemoryStoreModel {
    pub streams: Map<PersistenceIdModel, Seq<StoredEventModel>>,
    pub snapshots: Map<PersistenceIdModel, Option<StoredSnapshotModel>>,
}

/// One write to a store.
pub ghost enum Write {
    Append { id: PersistenceIdModel, next_seq_no: SeqNo, events: Seq<EncodedModel> },
    Save { id: PersistenceIdModel, next_seq_no: SeqNo, snapshot: EncodedModel },
}

impl InMemoryStoreModel {
    pub open spec fn fresh() -> InMemoryStoreModel {
        InMemoryStoreModel {
            streams: Map::new(|id: PersistenceIdModel| true, |id: PersistenceIdModel| Seq::empty()),
            snapshots: Map::new(|id: PersistenceIdModel| true, |id: PersistenceIdModel| None),
        }
    }

    /// The stream of the ID goes on where it ends, everything else stays.
    pub open spec fn appended(
        self,
        id: PersistenceIdModel,
        next_seq_no: SeqNo,
        events: Seq<EncodedModel>,
    ) -> InMemoryStoreModel {
        InMemoryStoreModel {
            streams: self.streams.insert(id, appending(self.streams[id], next_seq_no, events).0),
            ..self
        }
    }

    /// The snapshot of the ID is replaced, everything else stays.
    pub open spec fn saved(
        self,
        id: PersistenceIdModel,
        next_seq_no: SeqNo,
        snapshot: EncodedModel,
    ) -> InMemoryStoreModel {
        InMemoryStoreModel {
            snapshots: self.snapshots.insert(
                id,
                Some(StoredSnapshotModel { next_seq_no, snapshot }),
            ),
            ..self
        }
    }

    pub open spec fn written(self, write: Write) -> InMemoryStoreModel {
        match write {
            Write::Append { id, next_seq_no, events } => self.appended(id, next_seq_no, events),
            Write::Save { id, next_seq_no, snapshot } => self.saved(id, next_seq_no, snapshot),
        }
    }

    pub open spec fn written_all(self, writes: Seq<Write>) -> InMemoryStoreModel
        decreases writes.len(),
    {
        if writes.len() == 0 {
            self
        } else {
            self.written_all(writes.drop_last()).written(writes.last())
        }
    }
}

/// The snapshot saved last for the ID.
pub open spec fn last_saved(writes: Seq<Write>, id: PersistenceIdModel) -> Option<
    StoredSnapshotModel,
>
    decreases writes.len(),
{
    if writes.len() == 0 {
        None
    } else {
        match writes.last() {
            Write::Save { id: saved, next_seq_no, snapshot } if saved == id => Some(
                StoredSnapshotModel { next_seq_no, snapshot },
            ),
            _ => last_saved(writes.drop_last(), id),
        }
    }
}

/// The events of the appends to the ID which went on where its stream ended.
pub open spec fn appended_events(writes: Seq<Write>, id: PersistenceIdModel) -> Seq<EncodedModel>
    decreases writes.len(),
{
    if writes.len() == 0 {
        Seq::empty()
    } else {
        let before = appended_events(writes.drop_last(), id);
        match writes.last() {
            Write::Append { id: to, next_seq_no, events } if to == id && next_seq_no.0
                == before.len() => before + events,
            _ => before,
        }
    }
}

fn copy_events(events: &Vec<StoredEvent>, from: usize, to: usize) -> (copy: Vec<StoredEvent>)
    requires
        from <= to <= events@.len(),
    ensures
        stored_views(copy@) == stored_views(events@).subrange(from as int, to as int),
{
    let mut copy: Vec<StoredEvent> = Vec::new();
    let mut i: usize = from;
    while i < to
        invariant
            from <= i <= to <= events@.len(),
            stored_views(copy@) =~= stored_views(events@).subrange(from as int, i as int),
        decreases to - i,
    {
        let ghost before = copy@;
        copy.push(StoredEvent { seq_no: events[i].seq_no, event: events[i].event.copy() });
        assert(stored_views(copy@) =~= stored_views(before).push(stored_views(events@)[i as int]));
        i = i + 1;
    }
    copy
}

impl Default for InMemoryStore {
    fn default() -> (store: Self)
        ensures
            store.wf(),
            store@ == InMemoryStoreModel::fresh(),
    {
        let store = InMemoryStore { streams: Book::new(), snapshots: Book::new() };
        assert(store@ =~= InMemoryStoreModel::fresh());
        store
    }
}

impl View for InMemoryStore {
    type V = InMemoryStoreModel;

    open spec fn view(&self) -> InMemoryStoreModel {
        InMemoryStoreModel {
            streams: Map::new(
                |id: PersistenceIdModel| true,
                |id: PersistenceIdModel| self.stream(id),
            ),
            snapshots: Map::new(
                |id: PersistenceIdModel| true,
                |id: PersistenceIdModel| self.spec_snapshot(id),
            ),
        }
    }
}

impl InMemoryStore {
    /// The events of an ID, oldest first.
    pub open spec fn stream(&self, id: PersistenceIdModel) -> Seq<StoredEventModel> {
        match self.streams.spec_held(id) {
            Some(events) => stored_views(events@),
            None => Seq::empty(),
        }
    }

    pub open spec fn spec_snapshot(&self, id: PersistenceIdModel) -> Option<StoredSnapshotModel> {
        match self.snapshots.spec_held(id) {
            Some(snapshot) => Some(snapshot@),
            None => None,
        }
    }

    /// Every stream is without a gap, which appending keeps.
    pub open spec fn wf(&self) -> bool {
        &&& self.streams.wf()
        &&& self.snapshots.wf()
        &&& forall|id: PersistenceIdModel| is_gapless(#[trigger] self.stream(id))
    }

    /// The stored events of the given ID, oldest first.
    pub fn events(&self, id: &PersistenceId) -> (events: Vec<StoredEvent>)
        requires
            self.wf(),
        ensures
            stored_views(events@) == self@.streams[id@],
    {
        match self.streams.get(id) {
            Some(stream) => {
                let events = copy_events(stream, 0, stream.len());
                assert(stored_views(stream@).subrange(0, stream@.len() as int) =~= stored_views(
                    stream@,
                ));
                events
            },
            None => {
                let events: Vec<StoredEvent> = Vec::new();
                assert(stored_views(events@) =~= Seq::empty());
                events
            },
        }
    }

    /// The stored snapshot of the given ID, if there is one.
    pub fn snapshot(&self, id: &PersistenceId) -> (snapshot: Option<StoredSnapshot>)
        requires
            self.wf(),
        ensures
            match snapshot {
                Some(s) => self@.snapshots[id@] == Some(s@),
                None => self@.snapshots[id@] is None,
            },
    {
        match self.snapshots.get(id) {
            Some(stored) => Some(
                StoredSnapshot {
                    next_seq_no: stored.next_seq_no,
                    snapshot: stored.snapshot.copy(),
                },
            ),
            None => None,
        }
    }

    /// The snapshot a recovery begins with.
    pub fn load(&self, id: &PersistenceId) -> (snapshot: Option<StoredSnapshot>)
        requires
            self.wf(),
        ensures
            match snapshot {
                Some(s) => self@.snapshots[id@] == Some(s@),
                None => self@.snapshots[id@] is None,
            },
    {
        self.snapshot(id)
    }

    /// Appends events where the stream of the ID ends; conflicts if they are to begin elsewhere.
    pub fn append(&mut self, id: &PersistenceId, next_seq_no: SeqNo, events: Vec<EncodedEvent>) -> (r:
        Result<(), AppendError>)
        requires
            old(self).wf(),
        ensures
            final(self).wf(),
            final(self)@ == old(self)@.appended(id@, next_seq_no, encoded_views(events@)),
            r == appending(old(self)@.streams[id@], next_seq_no, encoded_views(events@)).1,
    {
        let ghost before = *self;
        let mut stream = match self.streams.take(id) {
            Some(stream) => stream,
            None => {
                let stream: Vec<StoredEvent> = Vec::new();
                assert(stored_views(stream@) =~= Seq::empty());
                stream
            },
        };
        let ghost held = stored_views(stream@);
        assert(held == before.stream(id@));
        if stream.len() as u64 != next_seq_no.0 || stream.len() as u128 != next_seq_no.0 as u128 {
            self.streams.put(id, stream);
            proof {
                assert forall|other: PersistenceIdModel| #[trigger] self.stream(other)
                    == before.stream(other) by {
                    if other != id@ {
                        assert(self.streams.spec_held(other) == before.streams.spec_held(other));
                    }
                }
                assert(self@ =~= before@.appended(id@, next_seq_no, encoded_views(events@)));
            }
            return Err(AppendError::Conflict);
        }
        let ghost added = numbered(encoded_views(events@), next_seq_no.0 as int);
        let ghost all = events@;
        let mut rest = events;
        let mut n: usize = 0;
        let count: usize = rest.len();
        assert(rest@ =~= all.skip(0));
        assert(stored_views(stream@) =~= held + added.take(0));
        while rest.len() > 0
            invariant
                n + rest@.len() == all.len(),
                all.len() == count,
                rest@ == all.skip(n as int),
                held.len() == next_seq_no.0,
                added == numbered(encoded_views(all), next_seq_no.0 as int),
                stored_views(stream@) == held + added.take(n as int),
            decreases rest@.len(),
        {
            let ghost pending = rest@;
            let ghost so_far = stream@;
            let event = rest.remove(0);
            assert(stored_views(stream@).len() == stream.len());
            let seq_no = next_seq_no.advanced_by(n);
            stream.push(StoredEvent { seq_no, event });
            proof {
                assert(pending[0] == all[n as int]);
                assert(rest@ =~= all.skip(n + 1));
                assert(encoded_views(all)[n as int] == event@);
                assert(added[n as int] == (StoredEventModel { seq_no, event: event@ }));
                assert(stored_views(stream@) =~= stored_views(so_far).push(added[n as int]));
                assert(added.take(n + 1) =~= added.take(n as int).push(added[n as int]));
            }
            n = n + 1;
        }
        assert(added.take(n as int) =~= added);
        assert(stored_views(stream@).len() == stream.len());
        self.streams.put(id, stream);
        proof {
            assert forall|other: PersistenceIdModel| other != id@ implies #[trigger] self.stream(
                other,
            ) == before.stream(other) by {
                assert(self.streams.spec_held(other) == before.streams.spec_held(other));
            }
            assert forall|other: PersistenceIdModel| is_gapless(#[trigger] self.stream(other)) by {
                if other == id@ {
                    let t = held + added;
                    assert forall|i: int| 0 <= i < t.len() implies (#[trigger] t[i]).seq_no.0
                        == i by {
                        if i < held.len() {
                            assert(t[i] == held[i]);
                            assert(is_gapless(before.stream(id@)));
                        } else {
                            assert(t[i] == added[i - held.len()]);
                        }
                    }
                } else {
                    assert(is_gapless(before.stream(other)));
                }
            }
            assert(self@ =~= before@.appended(id@, next_seq_no, encoded_views(all)));
        }
        Ok(())
    }

    /// At most so many events of the ID, from the given position on.
    pub fn read(&self, id: &PersistenceId, from_seq_no: SeqNo, limit: usize) -> (events: Vec<
        StoredEvent,
    >)
        requires
            self.wf(),
        ensures
            stored_views(events@) == reading(self@.streams[id@], from_seq_no, limit as int),
    {
        match self.streams.get(id) {
            Some(stream) => {
                let len: usize = stream.len();
                let start: usize = if from_seq_no.0 as u128 <= len as u128 {
                    from_seq_no.0 as usize
                } else {
                    len
                };
                let end: usize = if limit <= len - start {
                    start + limit
                } else {
                    len
                };
                copy_events(stream, start, end)
            },
            None => {
                let events: Vec<StoredEvent> = Vec::new();
                assert(stored_views(events@) =~= Seq::empty());
                events
            },
        }
    }

    /// Saves a snapshot of the ID instead of the one before.
    pub fn save(&mut self, id: &PersistenceId, next_seq_no: SeqNo, snapshot: EncodedSnapshot)
        requires
            old(self).wf(),
        ensures
            final(self).wf(),
            final(self)@ == old(self)@.saved(id@, next_seq_no, snapshot@),
    {
        let ghost before = *self;
        self.snapshots.put(id, StoredSnapshot { next_seq_no, snapshot });
        proof {
            assert forall|id: PersistenceIdModel| is_gapless(#[trigger] self.stream(id)) by {
                assert(self.stream(id) == before.stream(id));
            }
            assert forall|other: PersistenceIdModel| other != id@ implies #[trigger]
                self.spec_snapshot(other) == before.spec_snapshot(other) by {
                assert(self.snapshots.spec_held(other) == before.snapshots.spec_held(other));
            }
            assert(self@ =~= before@.saved(id@, next_seq_no, snapshot@));
        }
    }
}

/// An append succeeds if and only if it goes on where the stream of its ID ends. It then adds its
/// events behind those before it, else it changes nothing; no other ID and no snapshot is touched.
pub proof fn an_append_extends_its_stream_alone(
    store: InMemoryStoreModel,
    id: PersistenceIdModel,
    next_seq_no: SeqNo,
    events: Seq<EncodedModel>,
    other: PersistenceIdModel,
)
    requires
        store.streams.dom().contains(id),
    ensures
        ({
            let held = store.streams[id];
            let after = store.appended(id, next_seq_no, events);
            let r = appending(held, next_seq_no, events).1;
            &&& r is Ok == (next_seq_no.0 == held.len())
            &&& r is Ok ==> after.streams[id] == held + numbered(events, held.len() as int)
            &&& r is Err ==> r == Err::<(), AppendError>(AppendError::Conflict) && after == store
            &&& other != id ==> after.streams[other] == store.streams[other]
            &&& after.snapshots == store.snapshots
        }),
{
    if next_seq_no.0 != store.streams[id].len() {
        assert(store.appended(id, next_seq_no, events) =~= store);
    }
}

/// Whatever is written to a fresh store, an ID has the events which were accepted for it, oldest
/// first, and the event at each position has that position as its number.
pub proof fn a_stream_is_what_was_accepted(writes: Seq<Write>, id: PersistenceIdModel)
    ensures
        InMemoryStoreModel::fresh().written_all(writes).streams.dom().contains(id),
        InMemoryStoreModel::fresh().written_all(writes).streams[id] == numbered(
            appended_events(writes, id),
            0,
        ),
    decreases writes.len(),
{
    let after = InMemoryStoreModel::fresh().written_all(writes);
    if writes.len() == 0 {
        assert(after.streams[id] =~= numbered(appended_events(writes, id), 0));
    } else {
        a_stream_is_what_was_accepted(writes.drop_last(), id);
        assert(after.streams[id] =~= numbered(appended_events(writes, id), 0));
    }
}

/// Whatever is written to a fresh store, an ID has the snapshot saved for it last, and none if and
/// only if none was saved.
pub proof fn the_latest_save_is_loaded(writes: Seq<Write>, id: PersistenceIdModel)
    ensures
        InMemoryStoreModel::fresh().written_all(writes).snapshots.dom().contains(id),
        InMemoryStoreModel::fresh().written_all(writes).snapshots[id] == last_saved(writes, id),
        last_saved(writes, id) is None == (forall|i: int|
            0 <= i < writes.len() ==> !(#[trigger] writes[i] matches Write::Save { id: saved, .. }
                && saved == id)),
    decreases writes.len(),
{
    if writes.len() > 0 {
        let before = writes.drop_last();
        the_latest_save_is_loaded(before, id);
        assert(writes.last() == writes[writes.len() - 1]);
        assert forall|i: int| 0 <= i < before.len() implies before[i] == #[trigger] writes[i] by {}
        if last_saved(writes, id) is None {
            assert forall|i: int| 0 <= i < writes.len() implies !(#[trigger] writes[i]
                matches Write::Save { id: saved, .. } && saved == id) by {
                if i < before.len() {
                    assert(before[i] == writes[i]);
                }
            }
        } else if !(writes.last() matches Write::Save { id: saved, .. } && saved == id) {
            let i = choose|i: int|
                0 <= i < before.len() && (#[trigger] before[i] matches Write::Save {
                    id: saved,
                    ..
                } && saved == id);
            assert(writes[i] == before[i]);
        }
    }
}

/// What was appended is read back: the same events, in order, at the positions behind the ones before.
pub proof fn a_read_gives_back_what_was_appended(
    stream: Seq<StoredEventModel>,
    next_seq_no: SeqNo,
    events: Seq<EncodedModel>,
    limit: int,
)
    requires
        appending(stream, next_seq_no, events).1 is Ok,
        events.len() <= limit,
    ensures
        reading(appending(stream, next_seq_no, events).0, next_seq_no, limit) == numbered(
            events,
            next_seq_no.0 as int,
        ),
{
    let after = appending(stream, next_seq_no, events).0;
    assert(after.subrange(stream.len() as int, after.len() as int) =~= numbered(
        events,
        next_seq_no.0 as int,
    ));
}

/// Events are only ever added: what was stored stays, whatever is appended and whether or not that
/// succeeds.
pub proof fn what_is_stored_stays(
    stream: Seq<StoredEventModel>,
    next_seq_no: SeqNo,
    events: Seq<EncodedModel>,
)
    ensures
        appending(stream, next_seq_no, events).0.take(stream.len() as int) == stream,
{
    assert(appending(stream, next_seq_no, events).0.take(stream.len() as int) =~= stream);
}

/// A writer which is not the last one to have written is fenced off: once another one has appended at
/// a position, appending there conflicts and stores nothing.
pub proof fn a_stale_writer_conflicts(
    stream: Seq<StoredEventModel>,
    next_seq_no: SeqNo,
    first: Seq<EncodedModel>,
    second: Seq<EncodedModel>,
)
    requires
        appending(stream, next_seq_no, first).1 is Ok,
        first.len() > 0,
    ensures
        ({
            let after = appending(stream, next_seq_no, first).0;
            appending(after, next_seq_no, second) == (
                after,
                Err::<(), AppendError>(AppendError::Conflict),
            )
        }),
{
}

/// Reading page by page reads the stream: a page and what follows it are all there is.
pub proof fn pages_make_up_the_stream(stream: Seq<StoredEventModel>, from_seq_no: SeqNo, limit: int)
    requires
        from_seq_no.0 <= stream.len(),
        0 <= limit,
        from_seq_no.0 + limit <= u64::MAX,
    ensures
        reading(stream, from_seq_no, limit) + reading(
            stream,
            SeqNo((from_seq_no.0 + limit) as u64),
            stream.len() as int,
        ) == stream.skip(from_seq_no.0 as int),
{
    let from = from_seq_no.0 as int;
    assert(reading(stream, from_seq_no, limit) + reading(
        stream,
        SeqNo((from_seq_no.0 + limit) as u64),
        stream.len() as int,
    ) =~= stream.skip(from));
}

/// What a write does to the store: events are taken, numbered on from the stream's end, exactly if
/// they are meant for that end, and a snapshot replaces the one before. No other stream or snapshot
/// is touched.
pub proof fn a_write_is_taken_at_the_end(
    store: &mut InMemoryStore,
    id: &PersistenceId,
    next_seq_no: SeqNo,
    events: Vec<EncodedEvent>,
    r: Result<(), AppendError>,
    other: PersistenceIdModel,
)
    requires
        call_ensures(InMemoryStore::append, (store, id, next_seq_no, events), r),
        next_seq_no.0 + events@.len() <= u64::MAX,
    ensures
        ({
            let before = old(store)@.streams[id@];
            let after = final(store)@.streams[id@];
            let meant = before.len() == next_seq_no.0;
            &&& r is Ok <==> meant
            &&& r is Err ==> r == Err::<(), AppendError>(AppendError::Conflict) && after == before
            &&& meant ==> {
                &&& after.len() == before.len() + events@.len()
                &&& forall|i: int| 0 <= i < before.len() ==> #[trigger] after[i] == before[i]
                &&& forall|i: int|
                    0 <= i < events@.len() ==> (#[trigger] after[before.len() + i]).event
                        == events@[i]@ && after[before.len() + i].seq_no.0 == next_seq_no.0 + i
            }
            &&& other != id@ ==> final(store)@.streams[other] == old(store)@.streams[other]
            &&& final(store)@.snapshots == old(store)@.snapshots
        }),
{
}

/// What a read gives: the events from a position on, as many as asked for or there are, in order.
pub proof fn a_read_starts_where_asked(
    store: &InMemoryStore,
    id: &PersistenceId,
    from_seq_no: SeqNo,
    limit: usize,
    events: Vec<StoredEvent>,
    i: int,
)
    requires
        call_ensures(InMemoryStore::read, (store, id, from_seq_no, limit), events),
    ensures
        ({
            let stream = store@.streams[id@];
            let left = if from_seq_no.0 <= stream.len() {
                stream.len() - from_seq_no.0
            } else {
                0
            };
            &&& events@.len() == (if left <= limit {
                left
            } else {
                limit as int
            })
            &&& 0 <= i < events@.len() ==> events@[i]@ == stream[from_seq_no.0 + i]
        }),
{
    let page = reading(store@.streams[id@], from_seq_no, limit as int);
    assert(stored_views(events@) == page);
    assert(events@.len() == page.len());
    if 0 <= i < events@.len() {
        assert(stored_views(events@)[i] == events@[i]@);
    }
}

/// A snapshot saved is the one its stream has; those of the other streams, and all events, stay.
pub proof fn a_save_replaces_one_snapshot(
    store: &mut InMemoryStore,
    id: &PersistenceId,
    next_seq_no: SeqNo,
    snapshot: EncodedSnapshot,
    other: PersistenceIdModel,
)
    requires
        call_ensures(InMemoryStore::save, (store, id, next_seq_no, snapshot), ()),
    ensures
        final(store)@.snapshots[id@] == Some(
            StoredSnapshotModel { next_seq_no, snapshot: snapshot@ },
        ),
        other != id@ ==> final(store)@.snapshots[other] == old(store)@.snapshots[other],
        final(store)@.streams == old(store)@.streams,
{
}

} // verus!
