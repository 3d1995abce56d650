//! Recovering an event-sourced actor from its snapshot and events, and settling what it decides: its
//! events are stored before they are applied.

use vstd::prelude::*;

use crate::persistence::in_memory_store::encoded_views;
use crate::persistence::store::{EncodedEvent, EncodedModel, SchemaVersion, SeqNo};

verus! {

/// How many events a replay reads at a time.
pub const REPLAY_PAGE: usize = 512;

/// What an event-sourced actor's events do to its state.
pub trait EventSourced {
    type State;

    type Event;

    /// The state after an event.
    spec fn applied(&self, state: Self::State, event: Self::Event) -> Self::State;

    /// Apply an event to the state.
    fn apply(&self, state: Self::State, event: Self::Event) -> (after: Self::State)
        ensures
            after == self.applied(state, event),
    ;
}

/// The state after events in order.
pub open spec fn folded<A: EventSourced>(actor: A, state: A::State, events: Seq<A::Event>) -> A::State
    decreases events.len(),
{
    if events.len() == 0 {
        state
    } else {
        actor.applied(folded(actor, state, events.drop_last()), events.last())
    }
}

/// A stream which cannot be replayed.
#[derive(Debug, Clone, Copy, PartialEq, Eq, Structural)]
pub enum ReplayError<X> {
    /// An event cannot be decoded.
    Decode(X),
    /// The stream has a gap.
    Gap { seq_no: SeqNo, expected: SeqNo },
}

/// A page replayed: every event must be at the expected position and decodable; the first one which
/// is not ends the replay.
pub open spec fn replayed<A: EventSourced, X>(
    actor: A,
    state: A::State,
    next_seq_no: SeqNo,
    page: Seq<(SeqNo, Result<A::Event, X>)>,
) -> Result<(A::State, SeqNo), ReplayError<X>>
    decreases page.len(),
{
    if page.len() == 0 {
        Ok((state, next_seq_no))
    } else {
        match replayed(actor, state, next_seq_no, page.drop_last()) {
            Err(error) => Err(error),
            Ok((so_far, expected)) => {
                let (seq_no, decoded) = page.last();
                if seq_no != expected {
                    Err(ReplayError::Gap { seq_no, expected })
                } else {
                    match decoded {
                        Err(error) => Err(ReplayError::Decode(error)),
                        Ok(event) => Ok(
                            (actor.applied(so_far, event), SeqNo((expected.0 + 1) as u64)),
                        ),
                    }
                }
            },
        }
    }
}

proof fn lemma_replayed_to<A: EventSourced, X>(
    actor: A,
    state: A::State,
    next_seq_no: SeqNo,
    page: Seq<(SeqNo, Result<A::Event, X>)>,
)
    requires
        next_seq_no.0 + page.len() <= u64::MAX,
    ensures
        replayed(actor, state, next_seq_no, page) matches Ok((_, next)) ==> next.0
            == next_seq_no.0 + page.len(),
    decreases page.len(),
{
    if page.len() > 0 {
        lemma_replayed_to(actor, state, next_seq_no, page.drop_last());
    }
}

proof fn lemma_replay_stopped<A: EventSourced, X>(
    actor: A,
    state: A::State,
    next_seq_no: SeqNo,
    page: Seq<(SeqNo, Result<A::Event, X>)>,
    n: int,
)
    requires
        0 <= n <= page.len(),
        replayed(actor, state, next_seq_no, page.take(n)) is Err,
    ensures
        replayed(actor, state, next_seq_no, page) == replayed(
            actor,
            state,
            next_seq_no,
            page.take(n),
        ),
    decreases page.len() - n,
{
    if n < page.len() {
        assert(page.take(n + 1).drop_last() =~= page.take(n));
        lemma_replay_stopped(actor, state, next_seq_no, page, n + 1);
    } else {
        assert(page.take(n) =~= page);
    }
}

/// Replays a page of events, each with its position and what it was decoded to.
pub fn replay_page<A: EventSourced, X>(
    actor: &A,
    state: A::State,
    next_seq_no: SeqNo,
    page: Vec<(SeqNo, Result<A::Event, X>)>,
) -> (r: Result<(A::State, SeqNo), ReplayError<X>>)
    requires
        next_seq_no.0 + page@.len() <= u64::MAX,
    ensures
        r == replayed(*actor, state, next_seq_no, page@),
{
    let ghost all = page@;
    let ghost start = state;
    let mut rest = page;
    let mut so_far = state;
    let mut expected = next_seq_no;
    let ghost mut i: int = 0;
    assert(all.take(0) =~= Seq::empty());
    assert(rest@ =~= all.skip(0));
    while rest.len() > 0
        invariant
            all == page@,
            start == state,
            0 <= i <= all.len(),
            rest@ == all.skip(i),
            next_seq_no.0 + all.len() <= u64::MAX,
            expected.0 == next_seq_no.0 + i,
            replayed(*actor, start, next_seq_no, all.take(i)) == Ok::<
                (A::State, SeqNo),
                ReplayError<X>,
            >((so_far, expected)),
        decreases rest@.len(),
    {
        let ghost pending = rest@;
        let (seq_no, decoded) = rest.remove(0);
        proof {
            assert(pending[0] == all[i]);
            assert(rest@ =~= all.skip(i + 1));
            assert(all.take(i + 1).drop_last() =~= all.take(i));
            assert(all.take(i + 1).last() == all[i]);
        }
        if seq_no != expected {
            proof {
                lemma_replay_stopped(*actor, start, next_seq_no, all, i + 1);
            }
            return Err(ReplayError::Gap { seq_no, expected });
        }
        match decoded {
            Err(error) => {
                proof {
                    lemma_replay_stopped(*actor, start, next_seq_no, all, i + 1);
                }
                return Err(ReplayError::Decode(error));
            },
            Ok(event) => {
                so_far = actor.apply(so_far, event);
                expected = expected.succ();
            },
        }
        proof {
            i = i + 1;
        }
    }
    assert(all.take(i) =~= all);
    Ok((so_far, expected))
}

/// Where a recovery begins.
#[derive(Debug)]
pub enum Beginning<P> {
    /// From this snapshot, with the events from this position on.
    Snapshot(P, SeqNo),
    /// From the initial state, with every event.
    Initial,
}

/// Where a recovery begins, given what was loaded: the snapshot and what it was decoded to. One which
/// cannot be decoded is discarded, since the events alone suffice; a failed load fails the recovery.
pub fn beginning<P, X, E>(loaded: Result<Option<(Result<P, X>, SeqNo)>, E>) -> (r: Result<
    Beginning<P>,
    E,
>)
    ensures
        match loaded {
            Err(error) => r == Err::<Beginning<P>, E>(error),
            Ok(Some((Ok(snapshot), next_seq_no))) => r == Ok::<Beginning<P>, E>(
                Beginning::Snapshot(snapshot, next_seq_no),
            ),
            Ok(_) => r == Ok::<Beginning<P>, E>(Beginning::Initial),
        },
{
    match loaded {
        Err(error) => Err(error),
        Ok(Some((Ok(snapshot), next_seq_no))) => Ok(Beginning::Snapshot(snapshot, next_seq_no)),
        Ok(_) => Ok(Beginning::Initial),
    }
}

/// A recovery under way: the state so far and the position to read from.
#[derive(Debug)]
pub struct Recovery<S> {
    pub state: S,
    pub next_seq_no: SeqNo,
}

/// What a recovery does next.
#[derive(Debug)]
pub enum RecoveryStep<S, X> {
    /// Read another page.
    Read(Recovery<S>),
    /// The actor is recovered.
    Recovered(Recovery<S>),
    /// It is not.
    Failed(ReplayError<X>),
}

impl<S> Recovery<S> {
    /// Begins where the snapshot ends, or at the first event if there is none which can be used.
    pub fn begin(state: S, snapshot_covers: Option<SeqNo>) -> (recovery: Self)
        ensures
            recovery.state == state,
            recovery.next_seq_no == match snapshot_covers {
                Some(next_seq_no) => next_seq_no,
                None => SeqNo(0),
            },
    {
        let next_seq_no = match snapshot_covers {
            Some(next_seq_no) => next_seq_no,
            None => SeqNo::zero(),
        };
        Recovery { state, next_seq_no }
    }
}

/// Replays a page; one which is not full is the last.
pub fn on_page<A: EventSourced, X>(
    recovery: Recovery<A::State>,
    actor: &A,
    page: Vec<(SeqNo, Result<A::Event, X>)>,
) -> (step: RecoveryStep<A::State, X>)
    requires
        recovery.next_seq_no.0 + page@.len() <= u64::MAX,
    ensures
        match replayed(*actor, recovery.state, recovery.next_seq_no, page@) {
            Err(error) => step == RecoveryStep::<A::State, X>::Failed(error),
            Ok((state, next_seq_no)) => if page@.len() < REPLAY_PAGE {
                step == RecoveryStep::<A::State, X>::Recovered(Recovery { state, next_seq_no })
            } else {
                step == RecoveryStep::<A::State, X>::Read(Recovery { state, next_seq_no })
            },
        },
{
    let full = page.len() >= REPLAY_PAGE;
    match replay_page(actor, recovery.state, recovery.next_seq_no, page) {
        Err(error) => RecoveryStep::Failed(error),
        Ok((state, next_seq_no)) => {
            if full {
                RecoveryStep::Read(Recovery { state, next_seq_no })
            } else {
                RecoveryStep::Recovered(Recovery { state, next_seq_no })
            }
        },
    }
}

/// Applies events to the state, in order.
pub fn apply_events<A: EventSourced>(actor: &A, state: A::State, events: Vec<A::Event>) -> (after:
    A::State)
    ensures
        after == folded(*actor, state, events@),
{
    let ghost all = events@;
    let ghost start = state;
    let mut rest = events;
    let mut so_far = state;
    let ghost mut i: int = 0;
    assert(all.take(0) =~= Seq::empty());
    assert(rest@ =~= all.skip(0));
    while rest.len() > 0
        invariant
            0 <= i <= all.len(),
            rest@ == all.skip(i),
            so_far == folded(*actor, start, all.take(i)),
        decreases rest@.len(),
    {
        let ghost pending = rest@;
        let event = rest.remove(0);
        proof {
            assert(pending[0] == all[i]);
            assert(rest@ =~= all.skip(i + 1));
            assert(all.take(i + 1).drop_last() =~= all.take(i));
            assert(all.take(i + 1).last() == all[i]);
            i = i + 1;
        }
        so_far = actor.apply(so_far, event);
    }
    assert(all.take(i) =~= all);
    so_far
}

/// Events as they are stored, under a manifest and a schema version.
pub open spec fn tagged(manifest: Seq<char>, schema_version: SchemaVersion, payloads: Seq<Seq<u8>>) -> Seq<
    EncodedModel,
> {
    payloads.map_values(
        |payload: Seq<u8>| EncodedModel { manifest, schema_version, payload },
    )
}

/// Every payload up to the given one was encoded.
pub open spec fn all_encoded<X>(payloads: Seq<Result<Vec<u8>, X>>, n: int) -> bool {
    forall|i: int| 0 <= i < n ==> (#[trigger] payloads[i]) is Ok
}

pub open spec fn payload_views<X>(payloads: Seq<Result<Vec<u8>, X>>) -> Seq<Seq<u8>> {
    payloads.map_values(|payload: Result<Vec<u8>, X>| payload->Ok_0@)
}

/// The events as they are stored, given what each was encoded to; the first one which could not be
/// encoded fails them all.
pub fn encode_events<X>(
    manifest: &String,
    schema_version: SchemaVersion,
    payloads: Vec<Result<Vec<u8>, X>>,
) -> (r: Result<Vec<EncodedEvent>, X>)
    ensures
        match r {
            Ok(events) => {
                &&& all_encoded(payloads@, payloads@.len() as int)
                &&& encoded_views(events@) == tagged(
                    manifest@,
                    schema_version,
                    payload_views(payloads@),
                )
            },
            Err(error) => exists|i: int|
                0 <= i < payloads@.len() && all_encoded(payloads@, i) && #[trigger] payloads@[i]
                    == Err::<Vec<u8>, X>(error),
        },
{
    let ghost all = payloads@;
    let ghost expected = tagged(manifest@, schema_version, payload_views(all));
    let mut rest = payloads;
    let mut events: Vec<EncodedEvent> = Vec::new();
    let ghost mut i: int = 0;
    assert(rest@ =~= all.skip(0));
    assert(encoded_views(events@) =~= expected.take(0));
    while rest.len() > 0
        invariant
            all == payloads@,
            0 <= i <= all.len(),
            rest@ == all.skip(i),
            all_encoded(all, i),
            expected == tagged(manifest@, schema_version, payload_views(all)),
            encoded_views(events@) == expected.take(i),
        decreases rest@.len(),
    {
        let ghost pending = rest@;
        let ghost so_far = events@;
        let encoded = rest.remove(0);
        proof {
            assert(pending[0] == all[i]);
            assert(rest@ =~= all.skip(i + 1));
        }
        match encoded {
            Err(error) => {
                assert(payloads@[i] == Err::<Vec<u8>, X>(error));
                return Err(error);
            },
            Ok(payload) => {
                let event = EncodedEvent { manifest: manifest.clone(), schema_version, payload };
                events.push(event);
                proof {
                    assert(expected[i] == event@);
                    assert(encoded_views(events@) =~= encoded_views(so_far).push(event@));
                    assert(expected.take(i + 1) =~= expected.take(i).push(expected[i]));
                    i = i + 1;
                }
            },
        }
    }
    assert(expected.take(i) =~= expected);
    Ok(events)
}

/// An effect settled: the state, where the next event goes, and what is left to be done.
#[derive(Debug)]
pub struct Settled<S> {
    pub state: S,
    pub next_seq_no: SeqNo,
    /// Events were stored, so a snapshot may be due; one which cannot be saved is no failure.
    pub appended: bool,
    pub stop: bool,
}

/// Settles an effect whose events were stored or not: an effect without events needs no storing, one
/// whose events were not stored fails the actor, and stored events are applied.
pub fn settle<A: EventSourced>(
    actor: &A,
    state: A::State,
    next_seq_no: SeqNo,
    events: Vec<A::Event>,
    stored: bool,
    stop: bool,
) -> (settled: Option<Settled<A::State>>)
    requires
        next_seq_no.0 + events@.len() <= u64::MAX,
    ensures
        events@.len() == 0 ==> settled == Some(
            Settled { state, next_seq_no, appended: false, stop },
        ),
        events@.len() > 0 && !stored ==> settled is None,
        events@.len() > 0 && stored ==> settled == Some(
            Settled {
                state: folded(*actor, state, events@),
                next_seq_no: SeqNo((next_seq_no.0 + events@.len()) as u64),
                appended: true,
                stop,
            },
        ),
{
    let count: usize = events.len();
    if count == 0 {
        return Some(Settled { state, next_seq_no, appended: false, stop });
    }
    if !stored {
        return None;
    }
    let state = apply_events(actor, state, events);
    let next_seq_no = next_seq_no.advanced_by(count);
    Some(Settled { state, next_seq_no, appended: true, stop })
}

/// Ends a settled effect once its continuations ran over the new state; one which failed fails the
/// actor. Events were stored all the same, but no snapshot is taken.
pub fn continued<S>(settled: Settled<S>, ran: bool) -> (r: Option<Settled<S>>)
    ensures
        r == if ran {
            Some(settled)
        } else {
            None::<Settled<S>>
        },
{
    if ran {
        Some(settled)
    } else {
        None
    }
}

/// Events as a store hands them back: at consecutive positions and decodable.
pub open spec fn stream_of<E, X>(events: Seq<E>, from: int) -> Seq<(SeqNo, Result<E, X>)> {
    Seq::new(events.len(), |i: int| (SeqNo((from + i) as u64), Ok(events[i])))
}

/// A stream replayed whole gives the state its events amount to, and the position behind them.
pub proof fn replaying_applies_every_event<A: EventSourced, X>(
    actor: A,
    state: A::State,
    next_seq_no: SeqNo,
    events: Seq<A::Event>,
)
    requires
        next_seq_no.0 + events.len() <= u64::MAX,
    ensures
        replayed(actor, state, next_seq_no, stream_of::<A::Event, X>(events, next_seq_no.0 as int))
            == Ok::<(A::State, SeqNo), ReplayError<X>>(
            (folded(actor, state, events), SeqNo((next_seq_no.0 + events.len()) as u64)),
        ),
    decreases events.len(),
{
    if events.len() > 0 {
        let page = stream_of::<A::Event, X>(events, next_seq_no.0 as int);
        replaying_applies_every_event::<A, X>(actor, state, next_seq_no, events.drop_last());
        assert(page.drop_last() =~= stream_of::<A::Event, X>(
            events.drop_last(),
            next_seq_no.0 as int,
        ));
    }
}

/// Replaying page by page is replaying the whole: where a page ends makes no difference.
pub proof fn pages_do_not_matter<A: EventSourced, X>(
    actor: A,
    state: A::State,
    next_seq_no: SeqNo,
    first: Seq<(SeqNo, Result<A::Event, X>)>,
    second: Seq<(SeqNo, Result<A::Event, X>)>,
)
    ensures
        replayed(actor, state, next_seq_no, first + second) == match replayed(
            actor,
            state,
            next_seq_no,
            first,
        ) {
            Err(error) => Err::<(A::State, SeqNo), ReplayError<X>>(error),
            Ok((between, from)) => replayed(actor, between, from, second),
        },
    decreases second.len(),
{
    let both = first + second;
    if second.len() == 0 {
        assert(both =~= first);
    } else {
        pages_do_not_matter(actor, state, next_seq_no, first, second.drop_last());
        assert(both.drop_last() =~= first + second.drop_last());
        assert(both.last() == second.last());
    }
}

/// A stream recovered page by page from a position on.
pub open spec fn recovered<A: EventSourced, X>(
    actor: A,
    state: A::State,
    next_seq_no: SeqNo,
    stream: Seq<(SeqNo, Result<A::Event, X>)>,
) -> Result<(A::State, SeqNo), ReplayError<X>>
    decreases stream.len() - next_seq_no.0,
{
    let end = if next_seq_no.0 + REPLAY_PAGE <= stream.len() {
        next_seq_no.0 + REPLAY_PAGE
    } else {
        stream.len() as int
    };
    match replayed(actor, state, next_seq_no, stream.subrange(next_seq_no.0 as int, end)) {
        Err(error) => Err(error),
        Ok((after, next)) => if end < next_seq_no.0 + REPLAY_PAGE || next.0 <= next_seq_no.0
            || next.0 > stream.len() {
            Ok((after, next))
        } else {
            recovered(actor, after, next, stream)
        },
    }
}

/// Recovering page by page, until a page is not full, replays the whole stream.
pub proof fn a_recovery_replays_the_whole_stream<A: EventSourced, X>(
    actor: A,
    state: A::State,
    next_seq_no: SeqNo,
    stream: Seq<(SeqNo, Result<A::Event, X>)>,
)
    requires
        next_seq_no.0 <= stream.len() <= u64::MAX,
    ensures
        recovered(actor, state, next_seq_no, stream) == replayed(
            actor,
            state,
            next_seq_no,
            stream.skip(next_seq_no.0 as int),
        ),
    decreases stream.len() - next_seq_no.0,
{
    let from = next_seq_no.0 as int;
    if from + REPLAY_PAGE <= stream.len() {
        let page = stream.subrange(from, from + REPLAY_PAGE);
        let rest = stream.skip(from + REPLAY_PAGE);
        lemma_replayed_to(actor, state, next_seq_no, page);
        pages_do_not_matter(actor, state, next_seq_no, page, rest);
        assert(page + rest =~= stream.skip(from));
        if let Ok((after, next)) = replayed(actor, state, next_seq_no, page) {
            a_recovery_replays_the_whole_stream(actor, after, next, stream);
        }
    } else {
        assert(stream.subrange(from, stream.len() as int) =~= stream.skip(from));
    }
}

/// What an actor recovers to is the state it had: the state events were settled into is the one a
/// replay of everything stored, those events included, gives back.
pub proof fn recovery_restores_the_settled_state<A: EventSourced, X>(
    actor: A,
    init: A::State,
    before: Seq<A::Event>,
    events: Seq<A::Event>,
)
    requires
        before.len() + events.len() <= u64::MAX,
    ensures
        replayed(actor, init, SeqNo(0), stream_of::<A::Event, X>(before + events, 0)) == Ok::<
            (A::State, SeqNo),
            ReplayError<X>,
        >(
            (
                folded(actor, folded(actor, init, before), events),
                SeqNo((before.len() + events.len()) as u64),
            ),
        ),
{
    replaying_applies_every_event::<A, X>(actor, init, SeqNo(0), before + events);
    lemma_folded_add(actor, init, before, events);
}

/// A snapshot saves a replay its work and changes nothing: recovering from the state after the
/// events it covers gives the same as replaying them all.
pub proof fn a_snapshot_only_saves_work<A: EventSourced, X>(
    actor: A,
    init: A::State,
    covered: Seq<A::Event>,
    rest: Seq<A::Event>,
)
    requires
        covered.len() + rest.len() <= u64::MAX,
    ensures
        replayed(
            actor,
            folded(actor, init, covered),
            SeqNo(covered.len() as u64),
            stream_of::<A::Event, X>(rest, covered.len() as int),
        ) == replayed(actor, init, SeqNo(0), stream_of::<A::Event, X>(covered + rest, 0)),
{
    replaying_applies_every_event::<A, X>(
        actor,
        folded(actor, init, covered),
        SeqNo(covered.len() as u64),
        rest,
    );
    replaying_applies_every_event::<A, X>(actor, init, SeqNo(0), covered + rest);
    lemma_folded_add(actor, init, covered, rest);
}

proof fn lemma_folded_add<A: EventSourced>(
    actor: A,
    state: A::State,
    first: Seq<A::Event>,
    second: Seq<A::Event>,
)
    ensures
        folded(actor, state, first + second) == folded(actor, folded(actor, state, first), second),
    decreases second.len(),
{
    let both = first + second;
    if second.len() == 0 {
        assert(both =~= first);
    } else {
        lemma_folded_add(actor, state, first, second.drop_last());
        assert(both.drop_last() =~= first + second.drop_last());
        assert(both.last() == second.last());
    }
}

/// Events take effect one after the other, from the first to the last.
pub proof fn events_take_effect_in_order<A: EventSourced>(
    actor: A,
    state: A::State,
    events: Seq<A::Event>,
)
    ensures
        folded(actor, state, events) == events.fold_left(
            state,
            |so_far: A::State, event: A::Event| actor.applied(so_far, event),
        ),
    decreases events.len(),
{
    if events.len() > 0 {
        events_take_effect_in_order(actor, state, events.drop_last());
    }
}

/// A replay ends at the first event which is not at the position behind the one before it, or which
/// cannot be decoded, and says which; where there is none such it applies them all.
pub proof fn a_replay_stops_at_the_first_fault<A: EventSourced, X>(
    actor: A,
    state: A::State,
    next_seq_no: SeqNo,
    page: Seq<(SeqNo, Result<A::Event, X>)>,
    fault: int,
)
    requires
        next_seq_no.0 + page.len() <= u64::MAX,
        0 <= fault <= page.len(),
        forall|i: int|
            0 <= i < fault ==> (#[trigger] page[i]).0.0 == next_seq_no.0 + i && page[i].1 is Ok,
        fault < page.len() ==> page[fault].0.0 != next_seq_no.0 + fault || page[fault].1 is Err,
    ensures
        ({
            let r = replayed(actor, state, next_seq_no, page);
            let expected = SeqNo((next_seq_no.0 + fault) as u64);
            let events = Seq::new(fault as nat, |i: int| page[i].1->Ok_0);
            &&& fault == page.len() ==> r == Ok::<(A::State, SeqNo), ReplayError<X>>(
                (folded(actor, state, events), expected),
            )
            &&& fault < page.len() && page[fault].0 != expected ==> r == Err::<
                (A::State, SeqNo),
                ReplayError<X>,
            >(ReplayError::Gap { seq_no: page[fault].0, expected })
            &&& fault < page.len() && page[fault].0 == expected ==> r == Err::<
                (A::State, SeqNo),
                ReplayError<X>,
            >(ReplayError::Decode(page[fault].1->Err_0))
        }),
    decreases page.len(),
{
    if page.len() > 0 {
        let fewer = page.drop_last();
        let n = fewer.len() as int;
        if fault < page.len() - 1 {
            assert forall|i: int| 0 <= i < fault implies (#[trigger] fewer[i]).0.0 == next_seq_no.0
                + i && fewer[i].1 is Ok by {
                assert(fewer[i] == page[i]);
            }
            a_replay_stops_at_the_first_fault(actor, state, next_seq_no, fewer, fault);
        } else {
            assert forall|i: int| 0 <= i < n implies (#[trigger] fewer[i]).0.0 == next_seq_no.0 + i
                && fewer[i].1 is Ok by {
                assert(fewer[i] == page[i]);
            }
            a_replay_stops_at_the_first_fault(actor, state, next_seq_no, fewer, n);
            let before = Seq::new(n as nat, |i: int| fewer[i].1->Ok_0);
            let events = Seq::new(fault as nat, |i: int| page[i].1->Ok_0);
            if fault == page.len() {
                assert(page[n].0.0 == next_seq_no.0 + n);
                assert(events.drop_last() =~= before);
                assert(events.last() == page[n].1->Ok_0);
            }
        }
    } else {
        let events = Seq::new(fault as nat, |i: int| page[i].1->Ok_0);
        assert(events =~= Seq::<A::Event>::empty());
    }
}

/// What is stored carries its actor's manifest and schema version and its own payload.
pub proof fn payloads_are_tagged_alike(
    manifest: Seq<char>,
    schema_version: SchemaVersion,
    payloads: Seq<Seq<u8>>,
)
    ensures
        tagged(manifest, schema_version, payloads).len() == payloads.len(),
        forall|i: int|
            0 <= i < payloads.len() ==> #[trigger] tagged(manifest, schema_version, payloads)[i]
                == (EncodedModel { manifest, schema_version, payload: payloads[i] }),
{
}

/// An effect with events counts once they are stored: its state is what they make of the one before,
/// and the next position lies behind them. One whose events were not stored does not count at all, and
/// one without events changes nothing.
pub proof fn only_what_is_stored_counts<A: EventSourced>(
    actor: &A,
    state: A::State,
    next_seq_no: SeqNo,
    events: Vec<A::Event>,
    stored: bool,
    stop: bool,
    settled: Option<Settled<A::State>>,
)
    requires
        call_ensures(settle::<A>, (actor, state, next_seq_no, events, stored, stop), settled),
        next_seq_no.0 + events@.len() <= u64::MAX,
    ensures
        settled is None <==> events@.len() > 0 && !stored,
        settled matches Some(s) ==> {
            &&& s.next_seq_no.0 == next_seq_no.0 + events@.len()
            &&& s.appended == (events@.len() > 0)
            &&& s.stop == stop
            &&& s.state == events@.fold_left(
                state,
                |so_far: A::State, event: A::Event| actor.applied(so_far, event),
            )
        },
{
    events_take_effect_in_order(*actor, state, events@);
}

/// A recovery reads on after a full page and is over with one which is not; it fails where the page
/// cannot be replayed.
pub proof fn a_recovery_reads_to_the_end<A: EventSourced, X>(
    recovery: Recovery<A::State>,
    actor: &A,
    page: Vec<(SeqNo, Result<A::Event, X>)>,
    step: RecoveryStep<A::State, X>,
)
    requires
        call_ensures(on_page::<A, X>, (recovery, actor, page), step),
    ensures
        ({
            let r = replayed(*actor, recovery.state, recovery.next_seq_no, page@);
            &&& step is Failed <==> r is Err
            &&& step is Read <==> r is Ok && page@.len() >= REPLAY_PAGE
            &&& step is Recovered <==> r is Ok && page@.len() < REPLAY_PAGE
            &&& step matches RecoveryStep::Read(next) ==> (next.state, next.next_seq_no)
                == r->Ok_0
            &&& step matches RecoveryStep::Recovered(done) ==> (done.state, done.next_seq_no)
                == r->Ok_0
            &&& step matches RecoveryStep::Failed(error) ==> error == r->Err_0
        }),
{
}

/// A recovery begins with the snapshot if it can be decoded, and from the first event if there is none
/// or it cannot; a store which fails to load it fails the recovery.
pub proof fn a_recovery_begins_with_its_snapshot<P, X, E>(
    loaded: Result<Option<(Result<P, X>, SeqNo)>, E>,
    r: Result<Beginning<P>, E>,
)
    requires
        call_ensures(beginning::<P, X, E>, (loaded,), r),
    ensures
        r is Err <==> loaded is Err,
        loaded matches Ok(Some((Ok(snapshot), next_seq_no))) ==> r == Ok::<Beginning<P>, E>(
            Beginning::Snapshot(snapshot, next_seq_no),
        ),
        loaded matches Ok(Some((Err(_), _))) ==> r == Ok::<Beginning<P>, E>(Beginning::Initial),
        loaded matches Ok(None) ==> r == Ok::<Beginning<P>, E>(Beginning::Initial),
{
}

/// Events are stored together or not at all: the first one which cannot be encoded fails them with its
/// error, and otherwise each is stored as it was encoded, in order.
pub proof fn the_first_unencodable_event_fails_them_all<X>(
    manifest: &String,
    schema_version: SchemaVersion,
    payloads: Vec<Result<Vec<u8>, X>>,
    r: Result<Vec<EncodedEvent>, X>,
)
    requires
        call_ensures(encode_events::<X>, (manifest, schema_version, payloads), r),
    ensures
        r is Ok ==> {
            &&& r->Ok_0@.len() == payloads@.len()
            &&& forall|i: int|
                0 <= i < payloads@.len() ==> (#[trigger] payloads@[i]) is Ok && r->Ok_0@[i]@ == (
                EncodedModel {
                    manifest: manifest@,
                    schema_version,
                    payload: payloads@[i]->Ok_0@,
                })
        },
        r matches Err(error) ==> exists|i: int|
            0 <= i < payloads@.len() && #[trigger] payloads@[i] == Err::<Vec<u8>, X>(error) && forall|
                j: int,
            |
                0 <= j < i ==> (#[trigger] payloads@[j]) is Ok,
{
    if let Ok(events) = r {
        let expected = tagged(manifest@, schema_version, payload_views(payloads@));
        assert(encoded_views(events@).len() == events@.len());
        assert(expected.len() == payloads@.len());
        assert forall|i: int| 0 <= i < payloads@.len() implies (#[trigger] payloads@[i]) is Ok
            && events@[i]@ == (EncodedModel {
            manifest: manifest@,
            schema_version,
            payload: payloads@[i]->Ok_0@,
        }) by {
            assert(encoded_views(events@)[i] == events@[i]@);
            assert(expected[i] == encoded_views(events@)[i]);
        }
    }
}

} // verus!
