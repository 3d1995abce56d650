use tellus::addr::SocketAddr;
use tellus::cluster::api;
use tellus::cluster::discovery::{
    begin_lookup, finish_lookup, on_lookup, on_lookup_reply, Key, LocalRefError, LookupError,
    LookupResult, PendingLookups, RegisterError, WireKey,
};
use tellus::cluster::frame::Frame;
use tellus::cluster::membership::{Member, MemberState, Membership};
use tellus::cluster::pubsub::{publish, subscribe, Topic};
use tellus::cluster::reading::on_registrations;
use tellus::cluster::receptionist::{
    resolve, Receptionist, ReceptionistError, Settlement, Subscription, WireRegistration,
};
use tellus::cluster::registrations::{snapshot, Partial};
use tellus::cluster::registry::{register, Named, Registry};
use tellus::cluster::reply::{
    resolve_reply_to, AskReplyTags, Minting, PendingReplies, ReplyTag, ReplyToError,
    ResolvedReplyTo, WireReplyTo,
};
use tellus::cluster::state::{
    Change, Changes, ChangesSnapshot, ClusterState, ClusterStateError, PublishedChange, Received,
    Transition,
};
use tellus::ids::{ActorId, NodeId, Nonce};
use tellus::mailbox::{Mailbox, MailboxCapacity};
use tellus::watch::Watcher;

const NOW: u128 = 1_000_000_000_000;
const MAX_FRAME_SIZE: usize = 1_048_576;

fn addr(port: u16) -> SocketAddr {
    SocketAddr::v4(127, 0, 0, 1, port)
}

fn node(port: u16) -> NodeId {
    NodeId::new(addr(port))
}

/// A node's member list and directory, kept in step.
struct Site {
    membership: Membership,
    receptionist: Receptionist,
    registry: Registry,
    version: u64,
    published: Vec<PublishedChange>,
    read: usize,
}

fn site() -> Site {
    let own = node(1);
    let membership = Membership::new(own, usize::MAX, NOW);
    let state = ClusterState::new(own, 0, membership.members(), Vec::new());
    Site {
        membership,
        receptionist: Receptionist::new(own, state),
        registry: Registry::new(),
        version: 0,
        published: Vec::new(),
        read: 0,
    }
}

impl Site {
    fn publish_state(&mut self) {
        self.version += 1;
        self.receptionist.publish(ClusterState::new(
            self.membership.node(),
            self.version,
            self.membership.members(),
            Vec::new(),
        ));
    }

    fn up(&mut self, node: NodeId) {
        self.membership.add_up(node, NOW);
        self.publish_state();
    }

    fn down(&mut self, node: NodeId) {
        self.membership.down(node, NOW);
        self.publish_state();
    }

    fn node_death(&mut self, node: NodeId) {
        self.down(node);
        self.receptionist.evict_fenced(node);
    }

    fn apply(&mut self, origin: NodeId, version: u64, entries: Vec<WireRegistration>) -> bool {
        let up = self.membership.is_up(origin);
        self.receptionist.apply(origin, version, entries, up)
    }

    fn lookup(&self, key: &WireKey) -> Result<Vec<ActorId>, ReceptionistError> {
        resolve(
            &self.receptionist.listing(key),
            &self.membership.up_nodes(),
            |entry| Ok(entry.id),
        )
    }

    fn current<M>(
        &self,
        subscription: &mut Subscription<M>,
    ) -> Result<Vec<ActorId>, ReceptionistError> {
        let listing = self.receptionist.current(subscription);
        resolve(&listing, &self.membership.up_nodes(), |entry| Ok(entry.id))
    }

    fn next_published(&mut self) -> Option<&PublishedChange> {
        self.published.extend(self.receptionist.take_published());
        let next = self.published.get(self.read);
        if next.is_some() {
            self.read += 1;
        }
        next
    }

    fn expect_state(&mut self, version: u64) {
        match self.next_published() {
            Some(PublishedChange::State(state)) => assert_eq!(state.version(), version),
            other => panic!("expected the state {version}, got {other:?}"),
        }
    }

    fn expect_settled(&mut self, expected: Settlement, expected_seq: u64) {
        match self.next_published() {
            Some(PublishedChange::Settled { settlement, seq }) => {
                assert_eq!((*settlement, *seq), (expected, expected_seq));
            }
            other => panic!("expected the verdict {expected:?}, got {other:?}"),
        }
    }

    fn replicate(&mut self) {
        let own = self.membership.node();
        let (version, entries) = (self.registry.version, self.registry.entries.clone());
        self.receptionist.apply(own, version, entries, true);
    }

    fn told(&self, topic: &Topic<u64>, type_tag: &str) -> Result<Vec<ActorId>, ReceptionistError> {
        publish(
            Some(&self.receptionist),
            &self.membership.up_nodes(),
            topic,
            type_tag,
            |entry| Ok(entry.id),
        )
    }

    fn subscriber(&mut self, topic: &str) -> ActorId {
        let id = ActorId::new();
        subscribe(
            Some(&mut self.registry),
            &Topic::<u64>::new(topic),
            "u64",
            id,
            true,
            MAX_FRAME_SIZE,
        )
        .expect("the topic is short");
        self.replicate();
        id
    }
}

fn key(name: &str) -> WireKey {
    Key::<u64>::new(name).wire("u64")
}

fn registration(name: &str, id: ActorId) -> WireRegistration {
    WireRegistration { key: key(name), id }
}

fn registration_of(name: &str, type_tag: &str, id: ActorId) -> WireRegistration {
    WireRegistration {
        key: WireKey::new(name, type_tag),
        id,
    }
}

fn entries(frame: &Frame) -> (u32, u32, Vec<WireRegistration>) {
    match frame {
        Frame::Registrations {
            chunk,
            chunks,
            entries,
            ..
        } => (*chunk, *chunks, entries.clone()),
        frame => panic!("not a registrations frame: {frame:?}"),
    }
}

#[test]
fn a_stale_version_is_ignored_and_a_first_snapshot_applies() {
    let mut site = site();
    let origin = node(2);
    site.up(origin);
    let first = ActorId::new();
    let second = ActorId::new();

    assert!(site.apply(origin, 0, vec![registration("pool", first)]));
    assert!(site.apply(origin, 2, vec![registration("pool", second)]));
    assert!(!site.apply(origin, 1, vec![registration("pool", first)]));
    assert!(!site.apply(origin, 2, Vec::new()));

    let ids = site.lookup(&key("pool")).expect("the key resolves");
    assert_eq!(ids, vec![second]);
}

#[test]
fn an_empty_snapshot_removes_the_entries_but_keeps_the_replica() {
    let mut site = site();
    let origin = node(2);
    site.up(origin);
    site.apply(origin, 1, vec![registration("pool", ActorId::new())]);
    assert_eq!(site.lookup(&key("pool")).expect("resolves").len(), 1);

    site.apply(origin, 2, Vec::new());

    assert!(site.lookup(&key("pool")).expect("resolves").is_empty());
    assert!(site.receptionist.has_replicas(&[origin]));
}

#[test]
fn a_fence_evicts_the_covered_incarnations() {
    let mut site = site();
    let older = node(2);
    let younger = node(2);
    let other = node(3);
    for origin in [older, younger, other] {
        site.up(origin);
        site.apply(origin, 1, vec![registration("pool", ActorId::new())]);
    }

    site.receptionist.evict_fenced(older);

    assert!(!site.receptionist.has_replicas(&[older]));
    assert!(site.receptionist.has_replicas(&[younger, other]));
    assert_eq!(site.lookup(&key("pool")).expect("resolves").len(), 2);
}

#[test]
fn a_subscription_is_published_for_changed_names_only() {
    let mut site = site();
    let origin = node(2);
    site.up(origin);
    let id = ActorId::new();
    site.apply(origin, 1, vec![registration("pool", id)]);
    let mut pool: Subscription<u64> = site.receptionist.subscribe(key("pool"));
    let mut other: Subscription<u64> = site.receptionist.subscribe(key("other"));
    assert_eq!(site.current(&mut pool).expect("resolves").len(), 1);
    assert!(site.current(&mut other).expect("resolves").is_empty());

    site.apply(
        origin,
        2,
        vec![
            registration("pool", id),
            registration("other", ActorId::new()),
        ],
    );

    assert!(!site.receptionist.has_changed(&pool));
    assert!(site.receptionist.has_changed(&other));
    assert_eq!(site.current(&mut other).expect("resolves").len(), 1);
}

#[test]
fn settled_requires_the_current_version_and_every_up_peer() {
    let mut site = site();
    let first = node(2);
    let second = node(3);
    site.up(first);
    site.up(second);
    let version = site.receptionist.state().version();
    assert!(!site.receptionist.settled(version));

    site.apply(first, 1, Vec::new());
    assert!(!site.receptionist.settled(version));

    site.apply(second, 1, Vec::new());
    assert!(site.receptionist.settled(version));
    assert!(!site.receptionist.settled(version - 1));
    assert!(!site.receptionist.settled(version + 1));
}

#[test]
fn the_verdict_follows_membership_and_visibility() {
    let mut site = site();
    let first = node(2);
    assert_eq!(site.receptionist.settlement(), Settlement::new(0, true));

    site.up(first);
    site.expect_state(1);
    site.expect_settled(Settlement::new(1, false), 1);

    assert!(site.receptionist.apply(first, 1, Vec::new(), false));
    assert!(!site.receptionist.settled(1));
    assert!(site.next_published().is_none());

    site.receptionist.origin_up(first);
    site.expect_settled(Settlement::new(1, true), 2);
    assert!(site.receptionist.settled(1));

    let snapshot = site.receptionist.snapshot();
    assert_eq!(snapshot.state.version(), 1);
    assert_eq!(
        (snapshot.settlement, snapshot.seq),
        (Settlement::new(1, true), 2)
    );
    assert!(site.next_published().is_none());

    site.receptionist.evict_fenced(first);
    site.expect_settled(Settlement::new(1, false), 3);

    site.down(first);
    site.expect_state(2);
    site.expect_settled(Settlement::new(2, true), 4);
    assert!(site.next_published().is_none());
}

#[test]
fn unsubscribed_keys_are_pruned() {
    let mut site = site();
    let origin = node(2);
    site.up(origin);
    let subscription: Subscription<u64> = site.receptionist.subscribe(key("pool"));
    assert_eq!(site.receptionist.subscribed_keys(), 1);

    site.receptionist.unsubscribe(&subscription.key);
    site.apply(origin, 1, vec![registration("pool", ActorId::new())]);

    assert_eq!(site.receptionist.subscribed_keys(), 0);
}

#[test]
fn interleaved_chunks_reassemble_the_higher_version_only() {
    for order in [
        [(2, 0), (3, 0), (2, 1), (3, 1)],
        [(3, 1), (2, 0), (3, 0), (2, 0)],
    ] {
        let mut site = site();
        let origin = node(2);
        site.up(origin);
        let ids = [ActorId::new(), ActorId::new()];
        let chunk = |version: u64, index: u32| {
            let name = format!("v{version}-{index}");
            vec![registration(&name, ids[index as usize])]
        };
        let mut partial = Option::<Partial>::None;

        for (version, index) in order {
            on_registrations(
                &mut site.receptionist,
                &site.membership,
                origin,
                &mut partial,
                version,
                index,
                2,
                chunk(version, index),
            );
        }

        assert_eq!(site.receptionist.applied_version(origin), Some(3));
        for index in 0..2 {
            let held = key(&format!("v3-{index}"));
            assert_eq!(site.lookup(&held).expect("resolves").len(), 1);
            let gone = key(&format!("v2-{index}"));
            assert!(site.lookup(&gone).expect("resolves").is_empty());
        }
        assert!(partial.is_none());
    }
}

#[test]
fn malformed_chunks_are_dropped_and_a_declared_count_allocates_nothing() {
    let mut site = site();
    let origin = node(2);
    site.up(origin);
    let entry = || vec![registration("pool", ActorId::new())];
    let mut partial = Option::<Partial>::None;
    let mut take = |partial: &mut Option<Partial>, version: u64, chunk: u32, chunks: u32| {
        on_registrations(
            &mut site.receptionist,
            &site.membership,
            origin,
            partial,
            version,
            chunk,
            chunks,
            entry(),
        );
        site.receptionist.applied_version(origin)
    };

    take(&mut partial, 1, 0, 0);
    assert!(partial.is_none());
    take(&mut partial, 1, 2, 2);
    assert!(partial.is_none());

    take(&mut partial, 1, 0, u32::MAX);
    let open = partial.as_ref().expect("a buffer is open");
    assert_eq!(open.received.len(), 1);
    let applied = take(&mut partial, 1, 5, 5);
    assert_eq!(partial.as_ref().expect("still open").received.len(), 1);
    assert_eq!(applied, None);

    let applied = take(&mut partial, 2, 0, 1);
    assert_eq!(applied, Some(2));
    assert!(partial.is_none());
}

#[test]
fn a_wrong_type_is_a_mismatch_unless_the_name_is_also_held_under_the_asked_type() {
    let mut site = site();
    let first = node(2);
    let second = node(3);
    site.up(first);
    site.up(second);
    site.apply(first, 1, vec![registration("pool", ActorId::new())]);
    let asked = WireKey::new("pool", "u32");

    assert!(matches!(
        site.lookup(&asked),
        Err(ReceptionistError::TypeMismatch)
    ));
    let mut subscription: Subscription<u32> =
        site.receptionist.subscribe(WireKey::new("pool", "u32"));
    assert!(matches!(
        site.current(&mut subscription),
        Err(ReceptionistError::TypeMismatch)
    ));

    site.apply(
        second,
        1,
        vec![registration_of("pool", "u32", ActorId::new())],
    );
    assert_eq!(
        site.lookup(&asked)
            .expect("the u32 registration answers")
            .len(),
        1
    );

    site.node_death(second);
    assert!(matches!(
        site.lookup(&asked),
        Err(ReceptionistError::TypeMismatch)
    ));
    site.node_death(first);
    assert!(site
        .lookup(&asked)
        .expect("nothing Up holds the name")
        .is_empty());
}

#[test]
fn a_replica_of_a_not_yet_up_origin_becomes_visible_with_the_origin() {
    for subscribe_first in [true, false] {
        let mut site = site();
        let origin = node(2);
        let mut early: Option<Subscription<u64>> = None;
        if subscribe_first {
            let mut subscription = site.receptionist.subscribe(key("pool"));
            assert!(site
                .current(&mut subscription)
                .expect("resolves")
                .is_empty());
            early = Some(subscription);
        }

        assert!(site.apply(origin, 1, vec![registration("pool", ActorId::new())]));
        let mut subscription = match early {
            Some(early) => early,
            None => site.receptionist.subscribe(key("pool")),
        };
        assert!(!site.receptionist.has_changed(&subscription));
        assert!(site
            .current(&mut subscription)
            .expect("resolves")
            .is_empty());
        assert!(site.lookup(&key("pool")).expect("resolves").is_empty());

        site.up(origin);
        site.receptionist.origin_up(origin);

        assert!(site.receptionist.has_changed(&subscription));
        assert_eq!(site.current(&mut subscription).expect("resolves").len(), 1);
        site.receptionist.origin_up(origin);
        assert!(!site.receptionist.has_changed(&subscription));
    }
}

#[test]
fn a_snapshot_arriving_after_a_down_is_discarded_and_the_eviction_wakes_once() {
    let mut site = site();
    let origin = node(2);
    site.up(origin);
    assert!(site.apply(origin, 1, vec![registration("pool", ActorId::new())]));
    let mut subscription: Subscription<u64> = site.receptionist.subscribe(key("pool"));
    assert_eq!(site.current(&mut subscription).expect("resolves").len(), 1);

    site.down(origin);
    assert!(!site.apply(origin, 2, Vec::new()));
    assert_eq!(site.receptionist.applied_version(origin), Some(1));
    assert!(!site.receptionist.has_changed(&subscription));

    site.receptionist.evict_fenced(origin);

    assert!(site.receptionist.has_changed(&subscription));
    assert!(site
        .current(&mut subscription)
        .expect("resolves")
        .is_empty());
    assert!(!site.receptionist.has_changed(&subscription));
}

#[test]
fn a_hidden_set_made_visible_by_a_later_apply_is_published_once() {
    let mut site = site();
    let origin = node(2);
    let id = ActorId::new();
    assert!(site.apply(origin, 1, vec![registration("pool", id)]));
    let mut subscription: Subscription<u64> = site.receptionist.subscribe(key("pool"));
    assert!(site
        .current(&mut subscription)
        .expect("resolves")
        .is_empty());

    site.up(origin);
    assert!(site.apply(origin, 2, vec![registration("pool", id)]));

    assert!(site.receptionist.has_changed(&subscription));
    assert_eq!(site.current(&mut subscription).expect("resolves").len(), 1);
    site.receptionist.origin_up(origin);
    assert!(!site.receptionist.has_changed(&subscription));
}

#[test]
fn a_snapshot_is_chunked_within_the_frame_size_and_never_empty() {
    let empty = snapshot(1, Vec::new(), 200);
    assert_eq!(empty.frames.len(), 1);
    assert_eq!(entries(&empty.frames[0]), (0, 1, Vec::new()));

    let input = (0..20)
        .map(|index| registration(&format!("a-long-name-{index:03}"), ActorId::new()))
        .collect::<Vec<_>>();
    let chunked = snapshot(2, input.clone(), 200);
    assert!(chunked.frames.len() > 1);

    let mut concatenated = Vec::new();
    for (index, frame) in chunked.frames.iter().enumerate() {
        assert!(frame.encoded_len() <= 200);
        let (chunk, chunks, entries) = entries(frame);
        assert_eq!(chunk as usize, index);
        assert_eq!(chunks as usize, chunked.frames.len());
        concatenated.extend(entries);
    }
    assert_eq!(concatenated, input);
}

#[test]
fn a_chunked_snapshot_is_put_together_from_any_order() {
    let mut site = site();
    let origin = node(2);
    site.up(origin);
    let input = (0..20)
        .map(|index| registration(&format!("a-long-name-{index:03}"), ActorId::new()))
        .collect::<Vec<_>>();
    let mut partial = None;
    let mut applied = Vec::new();
    for frame in snapshot(4, input.clone(), 200).frames.iter().rev() {
        let (chunk, chunks, entries) = entries(frame);
        applied.push(on_registrations(
            &mut site.receptionist,
            &site.membership,
            origin,
            &mut partial,
            4,
            chunk,
            chunks,
            entries,
        ));
    }
    assert_eq!(applied.iter().filter(|applied| **applied).count(), 1);
    assert_eq!(applied.last(), Some(&true));
    for held in input {
        assert_eq!(site.lookup(&held.key), Ok(vec![held.id]));
    }
}

#[test]
fn dropping_a_pending_lookup_removes_its_reconnect_frame() {
    let peer = node(1234);
    let mut pending = PendingLookups::new();
    let lookup = pending.add(peer, key("answer"), ());

    assert_eq!(pending.frames(peer).len(), 1);

    pending.cancel(lookup);

    assert!(pending.frames(peer).is_empty());
}

#[test]
fn fenced_failure_preserves_a_successor_lookup() {
    let old = node(1234);
    let successor = node(1234);
    assert!(old.incarnation().older_than(successor.incarnation()));
    let mut pending = PendingLookups::new();
    let old_lookup = pending.add(old, key("old"), ());
    let successor_lookup = pending.add(successor, key("successor"), ());

    pending.fail_fenced(old);

    assert!(pending.cancel(old_lookup).is_none());
    assert!(pending.frames(old).is_empty());
    assert_eq!(pending.frames(successor).len(), 1);
    assert!(pending.cancel(successor_lookup).is_some());
}

#[test]
fn a_lookup_is_answered_by_the_node_it_was_sent_to() {
    let mut site = site();
    let peer = node(2);
    let stranger = node(3);
    let mut pending = PendingLookups::new();
    assert_eq!(
        begin_lookup(&site.membership, &mut pending, key("pool"), addr(2), "sink").unwrap_err(),
        LookupError::NotAMember(addr(2))
    );
    site.up(peer);
    let (to, frame) =
        begin_lookup(&site.membership, &mut pending, key("pool"), addr(2), "sink").expect("Up");
    assert_eq!(to, peer);
    let Frame::Lookup { nonce, key: asked } = frame else {
        panic!("not a lookup frame");
    };

    let mut registry = Registry::new();
    assert_eq!(
        on_lookup(&registry, nonce, &asked),
        Frame::LookupReply {
            nonce,
            result: LookupResult::NotFound
        }
    );
    let id = ActorId::new();
    registry.register(key("pool"), id);
    assert_eq!(
        on_lookup(&registry, nonce, &asked),
        Frame::LookupReply {
            nonce,
            result: LookupResult::Found { id }
        }
    );
    assert_eq!(
        on_lookup(&registry, nonce, &WireKey::new("pool", "u32")),
        Frame::LookupReply {
            nonce,
            result: LookupResult::TypeMismatch
        }
    );

    assert_eq!(on_lookup_reply(&mut pending, stranger, nonce), None);
    assert_eq!(on_lookup_reply(&mut pending, peer, nonce), Some("sink"));
    assert_eq!(on_lookup_reply(&mut pending, peer, nonce), None);

    assert_eq!(finish_lookup(LookupResult::Found { id }, Ok(id)), Ok(id));
    assert_eq!(
        finish_lookup::<ActorId>(LookupResult::NotFound, Err(LocalRefError::Unbound)),
        Err(LookupError::NotFound)
    );
    assert_eq!(
        finish_lookup::<ActorId>(
            LookupResult::Found { id },
            Err(LocalRefError::MessageType)
        ),
        Err(LookupError::TypeMismatch)
    );
}

#[test]
fn a_name_is_registered_once_per_actor_and_evicted_with_it() {
    let mut registry = Registry::new();
    let (first, second) = (ActorId::new(), ActorId::new());
    assert_eq!(
        register(None, key("pool"), first, true, MAX_FRAME_SIZE),
        Err(RegisterError::EndpointNotStarted)
    );
    assert_eq!(
        register(Some(&mut registry), key("pool"), first, false, MAX_FRAME_SIZE),
        Err(RegisterError::NotLocal)
    );
    assert!(matches!(
        register(Some(&mut registry), key("pool"), first, true, 32),
        Err(RegisterError::TooLarge { len, max: 32 }) if len > 32
    ));
    assert!(registry.entries.is_empty());
    for id in [first, first, second] {
        assert!(register(Some(&mut registry), key("pool"), id, true, MAX_FRAME_SIZE).is_ok());
    }
    assert_eq!(registry.entries.len(), 2);
    assert!(matches!(registry.named(&key("pool")), Named::Found(_)));
    registry.evict(first);
    assert_eq!(registry.named(&key("pool")), Named::Found(second));
    registry.evict(second);
    assert_eq!(registry.named(&key("pool")), Named::NotFound);
}

#[test]
fn a_publish_tells_every_subscriber_once() {
    let mut site = site();
    let topic = Topic::<u64>::new("notes");
    let first = site.subscriber("notes");
    let second = site.subscriber("notes");

    let mut told = site.told(&topic, "u64").expect("resolves");
    assert_eq!(told.len(), 2);

    told.sort_by_key(|id| id.0);
    let mut expected = vec![first, second];
    expected.sort_by_key(|id| id.0);
    assert_eq!(told, expected);
}

#[test]
fn a_topic_without_subscribers_tells_nobody() {
    let site = site();

    assert_eq!(
        site.told(&Topic::<u64>::new("notes"), "u64")
            .expect("resolves")
            .len(),
        0
    );
    assert_eq!(
        publish(
            None,
            &[],
            &Topic::<u64>::new("notes"),
            "u64",
            |entry| Ok(entry.id)
        ),
        Err(ReceptionistError::EndpointNotStarted)
    );
}

#[test]
fn a_topic_of_another_message_type_is_refused() {
    let mut site = site();
    let id = site.subscriber("notes");

    assert!(matches!(
        site.told(&Topic::<u64>::new("notes"), "alloc::string::String"),
        Err(ReceptionistError::TypeMismatch)
    ));
    assert_eq!(site.told(&Topic::<u64>::new("notes"), "u64"), Ok(vec![id]));
}

#[test]
fn a_terminated_subscriber_is_not_told() {
    let mut site = site();
    let topic = Topic::<u64>::new("notes");
    let first = site.subscriber("notes");
    let leaving = site.subscriber("notes");
    let version = site.registry.version;

    site.registry.evict(leaving);
    assert!(site.registry.version > version);
    site.replicate();

    assert_eq!(site.told(&topic, "u64"), Ok(vec![first]));
}

fn up(node: NodeId) -> Member {
    Member::new(node, MemberState::Up)
}

fn down(node: NodeId) -> Member {
    Member::new(node, MemberState::Down)
}

fn state(this: NodeId, version: u64, members: Vec<Member>) -> ClusterState {
    ClusterState::new(this, version, members, Vec::new())
}

fn at(state: &ClusterState, settlement: Settlement, seq: u64) -> ChangesSnapshot {
    ChangesSnapshot {
        state: state.copy(),
        settlement,
        seq,
    }
}

fn published(state: &ClusterState) -> Received {
    Received::Published(PublishedChange::State(state.copy()))
}

fn settled(version: u64, settled: bool, seq: u64) -> Received {
    Received::Published(PublishedChange::Settled {
        settlement: Settlement::new(version, settled),
        seq,
    })
}

#[test]
fn the_first_items_are_the_snapshot() {
    let this = node(1);
    let first = state(this, 1, vec![up(this)]);
    let mut changes = Changes::new(at(&first, Settlement::new(1, true), 1));

    assert_eq!(changes.next_queued(), Some(Change::State(first)));
    assert_eq!(
        changes.next_queued(),
        Some(Change::Settled(Settlement::new(1, true)))
    );
    assert_eq!(changes.next_queued(), None);
}

#[test]
fn entries_the_snapshot_represents_are_dropped() {
    let this = node(1);
    let peer = node(2);
    let first = state(this, 1, vec![up(this)]);
    let second = state(this, 2, vec![up(this), up(peer)]);
    let mut changes = Changes::new(at(&first, Settlement::new(1, true), 1));

    assert_eq!(changes.next_queued(), Some(Change::State(first.copy())));
    assert_eq!(
        changes.next_queued(),
        Some(Change::Settled(Settlement::new(1, true)))
    );
    assert_eq!(changes.next_queued(), None);
    assert_eq!(changes.next(published(&first)), None);
    assert_eq!(changes.next(settled(1, true, 1)), None);
    assert_eq!(
        changes.next(settled(1, false, 2)),
        Some(Change::Settled(Settlement::new(1, false)))
    );
    assert_eq!(
        changes.next(published(&second)),
        Some(Change::State(second))
    );
    assert_eq!(changes.next_queued(), None);
}

#[test]
fn a_lagging_subscriber_gets_a_gap_and_the_current_pair() {
    let this = node(1);
    let initial = state(this, 0, vec![up(this)]);
    let fourth = state(this, 4, vec![up(this)]);
    let fifth = state(this, 5, vec![up(this)]);
    let sixth = state(this, 6, vec![up(this)]);
    let mut changes = Changes::new(at(&initial, Settlement::new(0, true), 0));
    changes.next_queued();
    changes.next_queued();

    assert_eq!(
        changes.next(Received::Lagged {
            dropped: 3,
            snapshot: at(&fifth, Settlement::new(5, true), 3),
        }),
        Some(Change::Gap { dropped: 3 })
    );
    assert_eq!(changes.next_queued(), Some(Change::State(fifth.copy())));
    assert_eq!(
        changes.next_queued(),
        Some(Change::Settled(Settlement::new(5, true)))
    );
    assert_eq!(changes.next_queued(), None);
    assert_eq!(changes.next(published(&fourth)), None);
    assert_eq!(changes.next(published(&fifth)), None);

    assert_eq!(changes.next(published(&sixth)), Some(Change::State(sixth)));
}

#[test]
fn capacity_one_recovers_to_the_state() {
    let this = node(1);
    let initial = state(this, 0, vec![up(this)]);
    let first = state(this, 1, vec![up(this)]);
    let mut changes = Changes::new(at(&initial, Settlement::new(0, true), 0));
    changes.next_queued();
    changes.next_queued();

    assert_eq!(
        changes.next(Received::Lagged {
            dropped: 1,
            snapshot: at(&first, Settlement::new(1, true), 1),
        }),
        Some(Change::Gap { dropped: 1 })
    );
    assert_eq!(changes.next_queued(), Some(Change::State(first)));
    assert_eq!(
        changes.next_queued(),
        Some(Change::Settled(Settlement::new(1, true)))
    );
    assert_eq!(changes.next_queued(), None);
    assert_eq!(changes.next(settled(1, true, 1)), None);

    assert_eq!(
        changes.next(settled(1, false, 2)),
        Some(Change::Settled(Settlement::new(1, false)))
    );
}

#[test]
fn verdict_flips_evicting_the_last_state_still_end_in_the_current_state() {
    let this = node(1);
    let initial = state(this, 0, vec![up(this)]);
    let first = state(this, 1, vec![up(this)]);
    let second = state(this, 2, vec![up(this)]);
    let mut changes = Changes::new(at(&initial, Settlement::new(0, true), 0));
    changes.next_queued();
    changes.next_queued();

    assert_eq!(
        changes.next(Received::Lagged {
            dropped: 2,
            snapshot: at(&first, Settlement::new(1, false), 3),
        }),
        Some(Change::Gap { dropped: 2 })
    );
    assert_eq!(changes.next_queued(), Some(Change::State(first)));
    assert_eq!(
        changes.next_queued(),
        Some(Change::Settled(Settlement::new(1, false)))
    );
    assert_eq!(changes.next_queued(), None);
    assert_eq!(changes.next(settled(1, true, 2)), None);
    assert_eq!(changes.next(settled(1, false, 3)), None);

    assert_eq!(
        changes.next(published(&second)),
        Some(Change::State(second))
    );
}

#[test]
fn a_post_gap_snapshot_repeats_what_was_seen() {
    let this = node(1);
    let first = state(this, 1, vec![up(this)]);
    let mut changes = Changes::new(at(&first, Settlement::new(1, true), 1));
    changes.next_queued();
    changes.next_queued();

    assert_eq!(
        changes.next(Received::Lagged {
            dropped: 1,
            snapshot: at(&first, Settlement::new(1, true), 3),
        }),
        Some(Change::Gap { dropped: 1 })
    );
    assert_eq!(changes.next_queued(), Some(Change::State(first)));
    assert_eq!(
        changes.next_queued(),
        Some(Change::Settled(Settlement::new(1, true)))
    );
    assert_eq!(changes.next_queued(), None);
    assert_eq!(changes.next(settled(1, true, 3)), None);
}

#[test]
fn a_restart_is_the_predecessors_down_beside_the_successors_up() {
    let this = node(1);
    let older = node(2);
    let younger = node(2);
    let before = state(this, 1, vec![up(this), up(older)]);
    let restarted = state(this, 2, vec![up(this), down(older), up(younger)]);
    let forgotten = state(this, 3, vec![up(this), up(younger)]);

    assert_eq!(
        restarted.diff(&before),
        vec![Transition::Down(down(older)), Transition::Up(up(younger))]
    );
    assert_eq!(
        forgotten.diff(&restarted),
        vec![Transition::Forgotten(down(older))]
    );
}

#[test]
fn an_unreachable_member_downed_is_not_reachable_again() {
    let this = node(1);
    let peer = node(2);
    let listed = state(this, 1, vec![up(this), up(peer)]);
    let unreachable = ClusterState::new(this, 2, vec![up(this), up(peer)], vec![up(peer)]);
    let downed = state(this, 3, vec![up(this), down(peer)]);

    assert_eq!(
        unreachable.diff(&listed),
        vec![Transition::Unreachable(up(peer))]
    );
    assert_eq!(
        downed.diff(&unreachable),
        vec![Transition::Down(down(peer))]
    );
}

#[test]
fn an_unreachable_member_still_up_is_reachable_again() {
    let this = node(1);
    let peer = node(2);
    let unreachable = ClusterState::new(this, 1, vec![up(this), up(peer)], vec![up(peer)]);
    let reachable = state(this, 2, vec![up(this), up(peer)]);

    assert_eq!(
        reachable.diff(&unreachable),
        vec![Transition::Reachable(up(peer))]
    );
    assert_eq!(*reachable.diff(&unreachable)[0].member(), up(peer));
}

#[test]
fn a_state_names_this_node() {
    let this = node(1);
    let peer = node(2);
    let state = ClusterState::new(this, 7, vec![up(this), down(peer)], Vec::new());
    assert_eq!(state.this_addr(), addr(1));
    assert_eq!(state.this_incarnation(), this.incarnation());
    assert_eq!(state.this_member(), Some(&up(this)));
    assert_eq!(state.up(), vec![up(this)]);
    assert_eq!(state.members().len(), 2);
    assert!(state.unreachable().is_empty());
}

#[test]
fn reads_before_a_start_are_refused() {
    assert_eq!(
        api::settled(None, 0),
        Err(ReceptionistError::EndpointNotStarted)
    );
    assert_eq!(
        api::settlement(None),
        Err(ReceptionistError::EndpointNotStarted)
    );
    assert_eq!(
        api::cluster_state(None),
        Err(ClusterStateError::EndpointNotStarted)
    );
    assert!(matches!(
        api::changes(None),
        Err(ClusterStateError::EndpointNotStarted)
    ));

    let mut site = site();
    assert_eq!(api::settled(Some(&site.receptionist), 0), Ok(true));
    assert_eq!(
        api::settlement(Some(&mut site.receptionist)),
        Ok(Settlement::new(0, true))
    );
    let mut changes = api::changes(Some(&mut site.receptionist)).expect("started");
    assert!(matches!(changes.next_queued(), Some(Change::State(_))));
}

fn add_entry(pending: &mut PendingReplies<()>, recipient: Option<ActorId>) -> Nonce {
    pending.add((), recipient, false)
}

fn tag(nonce: Nonce) -> ReplyTag {
    ReplyTag {
        nonce,
        recipient: Some(ActorId::new()),
    }
}

#[test]
fn entries_are_taken_at_most_once() {
    let mut pending = PendingReplies::new();

    let nonce = add_entry(&mut pending, None);

    assert!(pending.take(nonce).is_some());
    assert!(pending.take(nonce).is_none());
}

#[test]
fn fail_fenced_evicts_only_covered_stamps() {
    let peer = node(1234);
    let other = node(1234);
    let mut pending = PendingReplies::new();

    assert!(peer.incarnation().older_than(other.incarnation()));
    let stamped = add_entry(&mut pending, None);
    let other_stamped = add_entry(&mut pending, None);
    let unstamped = add_entry(&mut pending, None);
    pending.stamp(&[tag(stamped)], peer);
    pending.stamp(&[tag(other_stamped)], other);

    pending.fail_fenced(peer);

    assert!(pending.take(stamped).is_none());
    assert!(pending.take(other_stamped).is_some());
    assert!(pending.take(unstamped).is_some());
}

#[test]
fn fail_addr_evicts_every_incarnation_at_the_address() {
    let mut pending = PendingReplies::new();

    let stamped = add_entry(&mut pending, None);
    let successor_stamped = add_entry(&mut pending, None);
    let other_stamped = add_entry(&mut pending, None);
    let unstamped = add_entry(&mut pending, None);
    pending.stamp(&[tag(stamped)], node(1234));
    pending.stamp(&[tag(successor_stamped)], node(1234));
    pending.stamp(&[tag(other_stamped)], node(5678));

    pending.fail_addr(addr(1234));

    assert!(pending.take(stamped).is_none());
    assert!(pending.take(successor_stamped).is_none());
    assert!(pending.take(other_stamped).is_some());
    assert!(pending.take(unstamped).is_some());
}

#[test]
fn only_the_asked_peer_settles_an_entry() {
    let asked = node(1234);
    let other = node(5678);
    let mut pending = PendingReplies::new();

    let nonce = add_entry(&mut pending, None);
    pending.stamp(&[tag(nonce)], asked);

    assert!(pending.take_from(nonce, other).is_none());
    assert!(pending.take_from(nonce, asked).is_some());
}

#[test]
fn an_unstamped_entry_is_settled_by_nobody() {
    let peer = node(1234);
    let mut pending = PendingReplies::new();

    let nonce = add_entry(&mut pending, None);

    assert!(pending.take_from(nonce, peer).is_none());
    assert!(pending.take(nonce).is_some());
}

#[test]
fn fail_recipient_evicts_only_that_recipients_entries() {
    let (recipient, other) = (ActorId::new(), ActorId::new());
    let mut pending = PendingReplies::new();

    let of_recipient = add_entry(&mut pending, Some(recipient));
    let of_other = add_entry(&mut pending, Some(other));
    let of_nobody = add_entry(&mut pending, None);

    pending.fail_recipient(recipient);

    assert!(pending.take(of_recipient).is_none());
    assert!(pending.take(of_other).is_some());
    assert!(pending.take(of_nobody).is_some());
}

#[test]
fn entries_of_one_recipient_register_one_eviction() {
    let mut mailbox: Mailbox<(), ()> = Mailbox::new(MailboxCapacity::Unbounded);
    let recipient = ActorId::new();
    let eviction = ActorId::new();
    let mut pending = PendingReplies::new();

    for _ in 0..3 {
        let terminated = mailbox
            .watcher_registry()
            .add(Watcher::new(eviction, ()))
            .is_err();
        pending.add((), Some(recipient), terminated);
    }

    mailbox.disconnect();
    assert_eq!(mailbox.watcher_registry().close().len(), 1);
}

#[test]
fn an_entry_for_a_terminated_recipient_is_reverted() {
    let mut mailbox: Mailbox<(), ()> = Mailbox::new(MailboxCapacity::Unbounded);
    mailbox.disconnect();
    mailbox.watcher_registry().close();
    let mut pending = PendingReplies::new();

    let terminated = mailbox
        .watcher_registry()
        .add(Watcher::new(ActorId::new(), ()))
        .is_err();
    let nonce = pending.add((), Some(ActorId::new()), terminated);

    assert!(pending.take(nonce).is_none());
}

#[test]
fn discard_removes_the_given_entries() {
    let mut pending = PendingReplies::new();

    let discarded = add_entry(&mut pending, None);
    let kept = add_entry(&mut pending, None);

    pending.discard(&[tag(discarded)]);

    assert!(pending.take(discarded).is_none());
    assert!(pending.take(kept).is_some());
}

fn own_and_actors(own: Nonce, actors: Nonce, actor: ActorId) -> Vec<ReplyTag> {
    vec![
        ReplyTag {
            nonce: own,
            recipient: None,
        },
        ReplyTag {
            nonce: actors,
            recipient: Some(actor),
        },
    ]
}

#[test]
fn discard_ask_releases_only_destinations_no_actor_awaits() {
    let mut pending = PendingReplies::new();

    let own = add_entry(&mut pending, None);
    let actor = ActorId::new();
    let actors = add_entry(&mut pending, Some(actor));

    pending.discard_ask(&own_and_actors(own, actors, actor));

    assert!(pending.take(own).is_none());
    assert!(pending.take(actors).is_some());
}

#[test]
fn dropping_the_guard_releases_the_asks_own_destinations() {
    let mut pending = PendingReplies::new();

    let own = add_entry(&mut pending, None);
    let actor = ActorId::new();
    let actors = add_entry(&mut pending, Some(actor));

    AskReplyTags::new(own_and_actors(own, actors, actor)).release(&mut pending);

    assert!(pending.take(own).is_none());
    assert!(pending.take(actors).is_some());
}

#[test]
fn a_disarmed_guard_releases_nothing() {
    let mut pending = PendingReplies::new();

    let own = add_entry(&mut pending, None);
    let mut guard = AskReplyTags::new(vec![ReplyTag {
        nonce: own,
        recipient: None,
    }]);

    guard.disarm();
    guard.release(&mut pending);

    assert!(pending.take(own).is_some());
}

#[test]
fn record_minted_scopes_nest() {
    let mut minting = Minting::new();
    minting.note_minted(tag(Nonce::first()));

    let before = minting.begin();
    minting.note_minted(tag(Nonce::first()));

    let between = minting.begin();
    minting.note_minted(tag(Nonce::first()));
    let inner = minting.end(between);
    assert_eq!(inner.len(), 1);

    minting.note_minted(tag(Nonce::first()));
    let outer = minting.end(before);

    assert_eq!(outer.len(), 2);
}

#[test]
fn a_destination_is_local_at_home_and_remote_elsewhere() {
    let (home, away) = (node(1), node(2));
    let mut pending = PendingReplies::new();
    let recipient = Some(ActorId::new());
    let nonce = pending.add("sink", recipient, false);
    let arrived = WireReplyTo {
        node: home,
        nonce,
        recipient,
    };

    assert!(matches!(
        resolve_reply_to(away, Some(&mut pending), arrived),
        Ok(ResolvedReplyTo::Remote(remote)) if remote == arrived
    ));
    assert!(matches!(
        resolve_reply_to(home, Some(&mut pending), arrived),
        Ok(ResolvedReplyTo::Local { sink: "sink", recipient: awaiting }) if awaiting == recipient
    ));
    assert!(matches!(
        resolve_reply_to(home, Some(&mut pending), arrived),
        Err(ReplyToError::NoPendingReply)
    ));
}

#[test]
fn a_view_is_published_once_under_the_next_version() {
    let mut site = site();
    let own = site.membership.node();
    let (peer, other) = (node(2), node(3));
    let key = WireKey::new("worker", "u64");
    let (id, hidden) = (ActorId::new(), ActorId::new());
    assert!(site.apply(peer, 1, vec![WireRegistration { key: key.copy(), id }]));
    let mut subscription: Subscription<u64> = site.receptionist.subscribe(key.copy());

    site.membership.add_up(peer, NOW);
    site.membership.add_up(other, NOW);
    let members = site.membership.members();
    let lost: Vec<Member> = members.iter().copied().filter(|m| m.node == other).collect();
    site.receptionist.observe(members.clone(), lost.clone());

    assert_eq!(site.receptionist.state().version(), 1);
    assert_eq!(site.receptionist.state().members(), &members[..]);
    assert_eq!(site.receptionist.state().unreachable(), &lost[..]);
    assert_eq!(site.receptionist.state().this_addr(), own.addr());
    site.expect_state(1);
    site.expect_settled(Settlement::new(1, false), 1);
    assert!(site.receptionist.has_changed(&subscription));
    assert_eq!(site.current(&mut subscription), Ok(vec![id]));

    site.receptionist.observe(members.clone(), lost);
    assert_eq!(site.receptionist.state().version(), 1);
    assert!(site.next_published().is_none());

    assert!(site.apply(other, 1, vec![WireRegistration { key: key.copy(), id: hidden }]));
    site.expect_settled(Settlement::new(1, true), 2);
    site.receptionist.observe(members, Vec::new());
    site.expect_state(2);
    site.expect_settled(Settlement::new(2, true), 3);

    site.membership.down(peer, NOW);
    site.receptionist.observe(site.membership.members(), Vec::new());
    site.expect_settled(Settlement::new(2, false), 4);
    site.expect_state(3);
    site.expect_settled(Settlement::new(3, true), 5);
    assert_eq!(site.current(&mut subscription), Ok(vec![hidden]));
    assert!(site.next_published().is_none());
}

#[test]
fn registrations_which_come_in_update_subscriptions() {
    let mut site = site();
    let peer = node(2);
    site.up(peer);
    let key = WireKey::new("worker", "u64");
    let id = ActorId::new();
    let mut subscription: Subscription<u64> = site.receptionist.subscribe(key.copy());
    assert_eq!(site.current(&mut subscription), Ok(Vec::new()));

    let mut partial = None;
    let registration = WireRegistration { key, id };
    assert!(on_registrations(
        &mut site.receptionist,
        &site.membership,
        peer,
        &mut partial,
        1,
        0,
        1,
        vec![registration.clone()],
    ));
    assert!(site.receptionist.has_changed(&subscription));
    assert_eq!(site.current(&mut subscription), Ok(vec![id]));

    assert!(!on_registrations(
        &mut site.receptionist,
        &site.membership,
        peer,
        &mut partial,
        1,
        0,
        1,
        Vec::new(),
    ));
    assert!(!site.receptionist.has_changed(&subscription));
    assert_eq!(site.receptionist.subscribed_keys(), 1);
}

#[test]
fn a_registration_moves_the_version() {
    let mut registry = Registry::new();
    let key = WireKey::new("worker", "u64");
    let id = ActorId::new();
    let first = register(Some(&mut registry), key.copy(), id, true, MAX_FRAME_SIZE);
    assert_eq!(first, Ok(()));
    assert_eq!(registry.version, 1);
    let again = register(Some(&mut registry), key, id, true, MAX_FRAME_SIZE);
    assert_eq!(again, Ok(()));
    assert_eq!(registry.version, 1);
    let topic: Topic<u64> = Topic::new("news");
    let subscribed = subscribe(Some(&mut registry), &topic, "u64", id, true, MAX_FRAME_SIZE);
    assert_eq!(subscribed, Ok(()));
    assert_eq!(registry.version, 2);
}
