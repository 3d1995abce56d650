use tellus::host::{Ended, Host, HostConfig, InvalidHostConfig, Routed};
use tellus::ids::ActorId;
use tellus::persistence::in_memory_store::InMemoryStore;
use tellus::persistence::recovery::{
    apply_events, on_page, settle, EventSourced, Recovery, RecoveryStep, ReplayError, REPLAY_PAGE,
};
use tellus::persistence::store::{
    AppendError, Encoded, PersistenceId, SchemaVersion, SeqNo,
};

fn persistence_id(name: &str) -> PersistenceId {
    PersistenceId::new("in-memory", name)
}

fn event(n: u8) -> Encoded {
    Encoded {
        manifest: "in-memory-event".into(),
        schema_version: SchemaVersion::new(1),
        payload: vec![n],
    }
}

fn snapshot() -> Encoded {
    Encoded {
        manifest: "in-memory-snapshot".into(),
        schema_version: SchemaVersion::new(1),
        payload: vec![0xFF],
    }
}

#[test]
fn appended_events_are_returned_in_order() {
    let mut store = InMemoryStore::default();
    let id = persistence_id("events");

    store
        .append(&id, SeqNo::zero(), vec![event(1), event(2)])
        .expect("the append succeeds");

    let events = store.events(&id);

    assert_eq!(events.len(), 2);
    assert_eq!(events[0].seq_no, SeqNo::zero());
    assert_eq!(events[0].event, event(1));
    assert_eq!(events[1].seq_no, SeqNo::new(1));
    assert_eq!(events[1].event, event(2));
}

#[test]
fn a_saved_snapshot_is_returned() {
    let mut store = InMemoryStore::default();
    let id = persistence_id("snapshot");

    assert!(store.snapshot(&id).is_none());

    store.save(&id, SeqNo::new(2), snapshot());
    let stored = store.snapshot(&id).expect("the snapshot is stored");

    assert_eq!(stored.next_seq_no, SeqNo::new(2));
    assert_eq!(stored.snapshot, snapshot());
}

#[test]
fn an_unknown_id_holds_nothing() {
    let store = InMemoryStore::default();

    assert!(store.events(&persistence_id("unknown")).is_empty());
    assert!(store.snapshot(&persistence_id("unknown")).is_none());
}

#[test]
fn a_conflicting_append_stores_nothing() {
    let mut store = InMemoryStore::default();
    let id = persistence_id("conflict");
    store
        .append(&id, SeqNo::zero(), vec![event(1)])
        .expect("the append succeeds");
    for stale in [SeqNo::zero(), SeqNo::new(2)] {
        assert_eq!(
            store.append(&id, stale, vec![event(2)]),
            Err(AppendError::Conflict)
        );
    }
    assert_eq!(store.events(&id).len(), 1);
    store
        .append(&id, SeqNo::new(1), vec![event(2), event(3)])
        .expect("the append succeeds");
    let page = store.read(&id, SeqNo::new(1), 1);
    assert_eq!(page.len(), 1);
    assert_eq!(page[0].event, event(2));
    assert_eq!(store.read(&id, SeqNo::new(1), 10).len(), 2);
    assert!(store.read(&id, SeqNo::new(3), 10).is_empty());
}

struct Sum;

impl EventSourced for Sum {
    type State = u64;
    type Event = u64;

    fn applied(&self, state: u64, event: u64) -> u64 {
        state.wrapping_mul(10).wrapping_add(event)
    }

    fn apply(&self, state: u64, event: u64) -> u64 {
        self.applied(state, event)
    }
}

fn page(from: u64, events: &[u64]) -> Vec<(SeqNo, Result<u64, &'static str>)> {
    events
        .iter()
        .enumerate()
        .map(|(at, event)| (SeqNo::new(from + at as u64), Ok(*event)))
        .collect()
}

#[test]
fn a_recovery_replays_behind_its_snapshot() {
    let recovery = Recovery::begin(12, Some(SeqNo::new(2)));
    assert_eq!(recovery.next_seq_no, SeqNo::new(2));
    let RecoveryStep::Recovered(recovered) = on_page(recovery, &Sum, page(2, &[3, 4])) else {
        panic!("a short page is the last");
    };
    assert_eq!(recovered.state, 1_234);
    assert_eq!(recovered.next_seq_no, SeqNo::new(4));
    assert_eq!(apply_events(&Sum, 0, vec![1, 2, 3, 4]), 1_234);
}

#[test]
fn a_full_page_asks_for_the_next() {
    let recovery = Recovery::begin(0, None);
    let full = page(0, &vec![0; REPLAY_PAGE]);
    let RecoveryStep::Read(recovery) = on_page(recovery, &Sum, full) else {
        panic!("a full page may not be the last");
    };
    assert_eq!(recovery.next_seq_no, SeqNo::new(REPLAY_PAGE as u64));
    assert!(matches!(
        on_page(recovery, &Sum, page(0, &[])),
        RecoveryStep::Recovered(_)
    ));
}

#[test]
fn a_broken_stream_fails_the_recovery() {
    assert!(matches!(
        on_page(Recovery::begin(0, None), &Sum, page(1, &[1])),
        RecoveryStep::Failed(ReplayError::Gap { seq_no, expected })
            if seq_no == SeqNo::new(1) && expected == SeqNo::zero()
    ));
    assert!(matches!(
        on_page(
            Recovery::begin(0, None),
            &Sum,
            vec![(SeqNo::zero(), Err("garbage"))]
        ),
        RecoveryStep::Failed(ReplayError::Decode("garbage"))
    ));
}

#[test]
fn events_apply_once_they_are_stored() {
    let settled = settle(&Sum, 1, SeqNo::new(1), vec![2, 3], true, false).expect("stored");
    assert_eq!(settled.state, 123);
    assert_eq!(settled.next_seq_no, SeqNo::new(3));
    assert!(settled.appended);
    assert!(!settled.stop);

    assert!(settle(&Sum, 1, SeqNo::new(1), vec![2], false, false).is_none());

    let settled = settle(&Sum, 1, SeqNo::new(1), Vec::new(), false, true).expect("nothing to store");
    assert_eq!(settled.state, 1);
    assert!(!settled.appended);
    assert!(settled.stop);
}

#[test]
fn a_host_spawns_passivates_and_respawns() {
    let config = HostConfig::new(2).with_idle_timeout(10).expect("not zero");
    assert_eq!(
        HostConfig::new(2).with_idle_timeout(0),
        Err(InvalidHostConfig::ZeroIdleTimeout)
    );
    assert_eq!(HostConfig::default().buffer, 64);
    let mut host: Host<u64, &'static str> = Host::new(config);

    let Routed::Spawn(key, message) = host.route(7, "first", 0) else {
        panic!("nothing is live");
    };
    assert_eq!((key, message), (7, "first"));
    let actor = ActorId::new();
    host.spawned(7, actor, 0);
    assert!(matches!(
        host.route(7, "second", 5),
        Routed::Tell(told, "second") if told == actor
    ));
    assert!(host.idle(14).is_empty());
    assert_eq!(host.idle(15), vec![(7, actor)]);

    host.passivated(&7, actor);
    assert!(matches!(host.route(7, "third", 20), Routed::Buffered));
    assert!(matches!(host.route(7, "fourth", 20), Routed::Buffered));
    assert!(matches!(
        host.route(7, "fifth", 20),
        Routed::Dropped(full, "fifth") if full == actor
    ));
    let Ended::Respawn(key, buffered) = host.terminated(actor) else {
        panic!("messages arrived meanwhile");
    };
    assert_eq!(key, 7);
    assert_eq!(buffered, vec!["third", "fourth"]);
    assert!(matches!(host.terminated(actor), Ended::Nothing));

    let ticker = ActorId::new();
    host.tick_later(Some(ticker));
    assert!(matches!(host.terminated(ticker), Ended::Tick));
}

#[test]
fn a_store_keeps_ids_and_kinds_of_write_apart() {
    let mut store = InMemoryStore::default();
    let (one, two) = (persistence_id("one"), persistence_id("two"));
    let later = Encoded {
        payload: vec![0xFE],
        ..snapshot()
    };

    store.save(&one, SeqNo::new(1), snapshot());
    store
        .append(&one, SeqNo::zero(), vec![event(1)])
        .expect("the append succeeds");
    store
        .append(&two, SeqNo::zero(), vec![event(2), event(3)])
        .expect("the append succeeds");
    store.save(&one, SeqNo::new(2), later.clone());
    assert_eq!(
        store.append(&one, SeqNo::zero(), vec![event(4)]),
        Err(AppendError::Conflict)
    );

    let saved = store.snapshot(&one).expect("a snapshot was saved");
    assert_eq!((saved.next_seq_no, saved.snapshot), (SeqNo::new(2), later));
    assert!(store.snapshot(&two).is_none());
    assert_eq!(store.events(&one).len(), 1);
    for (i, stored) in store.events(&two).iter().enumerate() {
        assert_eq!(stored.seq_no, SeqNo::new(i as u64));
        assert_eq!(stored.event, event(i as u8 + 2));
    }
}

#[test]
fn entities_can_be_named_by_text() {
    let config = HostConfig::new(1).with_idle_timeout(10).expect("not zero");
    let mut host: Host<String, u8> = Host::new(config);
    let (cart, order) = (ActorId::new(), ActorId::new());

    assert!(matches!(host.route("cart".into(), 1, 0), Routed::Spawn(key, 1) if key == "cart"));
    assert!(!host.is_known(&"cart".into(), cart));
    host.spawned("cart".into(), cart, 0);
    assert!(host.is_known(&"cart".into(), order));
    host.spawned("order".into(), order, 8);
    assert!(matches!(host.route("order".into(), 2, 8), Routed::Tell(to, 2) if to == order));

    assert_eq!(host.idle(12), vec![("cart".to_string(), cart)]);
    host.passivated(&"cart".into(), cart);
    assert!(matches!(host.route("cart".into(), 3, 12), Routed::Buffered));
    assert!(matches!(host.route("cart".into(), 4, 12), Routed::Dropped(_, 4)));
    let Ended::Respawn(key, buffered) = host.terminated(cart) else {
        panic!("a message waits");
    };
    assert_eq!((key.as_str(), buffered), ("cart", vec![3]));
    assert!(matches!(host.terminated(order), Ended::Nothing));
}
