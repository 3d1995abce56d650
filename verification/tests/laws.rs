use std::cell::RefCell;
use std::rc::Rc;

use tellus::actor::{next_incoming, watch_local, NextIncoming, WatchedActors};
use tellus::addr::SocketAddr;
use tellus::cluster::codec::CodecError;
use tellus::cluster::config::EndpointConfig;
use tellus::cluster::failure::{Deadline, DeadlineFailureDetector};
use tellus::cluster::frame::{Frame, StreamKey};
use tellus::cluster::lanes::{stream_index, LaneError, Lanes};
use tellus::cluster::discovery::{LocalRefError, WireKey};
use tellus::cluster::membership::{Member, MemberState, Membership, WireMember};
use tellus::cluster::receptionist::{
    lookup, Entry, Receptionist, ReceptionistError, WireRegistration,
};
use tellus::cluster::reply::{
    resolve_reply_to, serialize_reply_to, Minting, PendingReplies, ReplyTag, ReplyToError,
    ResolvedReplyTo, WireReplyTo,
};
use tellus::cluster::sink::RemoteSendError;
use tellus::cluster::state::ClusterState;
use tellus::ids::{ActorId, NodeId, Nonce};
use tellus::mailbox::{Incoming, Mailbox, MailboxCapacity};
use tellus::persistence::in_memory_store::InMemoryStore;
use tellus::persistence::recovery::{
    beginning, continued, encode_events, settle, Beginning, EventSourced,
};
use tellus::persistence::store::{AppendError, Encoded, PersistenceId, SchemaVersion, SeqNo};
use tellus::request_response::ReplyTo;
use tellus::watch::{Watcher, WatcherRegistry};

const NOW: u128 = 1_000_000_000_000;

fn node(port: u16) -> NodeId {
    NodeId::new(SocketAddr::v4(127, 0, 0, 1, port))
}

/// What a node makes of a list: merged, and the deaths it asks for carried out.
fn take(membership: &mut Membership, list: &[WireMember]) {
    let merge = membership.merge(list, NOW);
    assert!(!merge.self_down);
    for dead in merge.to_down {
        membership.down(dead, NOW);
    }
}

#[test]
fn exchanging_lists_makes_nodes_agree() {
    let (a, b) = (node(1), node(2));
    let (older, younger, gone, seen_alive) = (node(3), node(3), node(4), node(5));

    let mut of_a = Membership::new(a, 16, NOW);
    assert!(of_a.add_up(older, NOW));
    assert!(of_a.add_up(gone, NOW));
    assert!(of_a.add_up(seen_alive, NOW));
    let mut of_b = Membership::new(b, 16, NOW);
    assert!(of_b.add_up(younger, NOW));
    of_b.down(gone, NOW);

    let (from_a, from_b) = (of_a.handshake_snapshot(), of_b.handshake_snapshot());
    take(&mut of_a, &from_b);
    take(&mut of_b, &from_a);

    for known in [a, b, older, younger, gone, seen_alive] {
        assert_eq!(of_a.is_up(known), of_b.is_up(known));
        assert_eq!(of_a.is_down(known), of_b.is_down(known));
    }
    for up in [a, b, younger, seen_alive] {
        assert!(of_a.is_up(up));
    }
    for dead in [older, gone] {
        assert!(of_a.is_down(dead) && !of_a.is_up(dead));
    }
}

#[test]
fn gossip_may_come_in_any_order() {
    let (first, second, third) = (node(3), node(3), node(3));
    let mut knows_second = Membership::new(node(1), 16, NOW);
    assert!(knows_second.add_up(second, NOW));
    let mut knows_third = Membership::new(node(2), 16, NOW);
    assert!(knows_third.add_up(third, NOW));

    let (second_up, third_up) = (
        knows_second.handshake_snapshot(),
        knows_third.handshake_snapshot(),
    );
    let this = node(4);
    let mut ascending = Membership::new(this, 16, NOW);
    assert!(ascending.add_up(first, NOW));
    let mut descending = Membership::new(this, 16, NOW);
    assert!(descending.add_up(first, NOW));
    take(&mut ascending, &second_up);
    take(&mut ascending, &third_up);
    take(&mut descending, &third_up);
    take(&mut descending, &second_up);

    for membership in [ascending, descending] {
        assert!(membership.is_down(first));
        assert!(membership.is_down(second));
        assert!(membership.is_up(third) && !membership.is_down(third));
    }
}

#[test]
fn a_destination_travels_once_and_its_reply_comes_home() {
    let home = node(1);
    let recipient = ActorId::new();
    let received = Rc::new(RefCell::new(Vec::new()));
    let sink = received.clone();
    let mut reply_to = ReplyTo::new(move |reply: u8| sink.borrow_mut().push(reply))
        .with_recipient(Some(recipient));
    let mut pending = PendingReplies::new();
    let mut minting = Minting::new();

    assert_eq!(
        serialize_reply_to(home, None, &mut minting, &mut reply_to, false),
        Err(ReplyToError::EndpointNotStarted)
    );

    let outer = minting.begin();
    let sent = serialize_reply_to(home, Some(&mut pending), &mut minting, &mut reply_to, false)
        .expect("a fresh destination serializes");
    assert_eq!(
        minting.end(outer),
        vec![ReplyTag {
            nonce: sent.nonce,
            recipient: Some(recipient),
        }]
    );
    assert_eq!(
        sent,
        WireReplyTo {
            node: home,
            nonce: Nonce(0),
            recipient: Some(recipient),
        }
    );
    assert_eq!(
        serialize_reply_to(home, Some(&mut pending), &mut minting, &mut reply_to, false),
        Err(ReplyToError::AlreadySerialized)
    );

    match resolve_reply_to(home, Some(&mut pending), sent) {
        Ok(ResolvedReplyTo::Local { sink, .. }) => sink(7),
        _ => panic!("the destination is of this node"),
    }
    assert_eq!(*received.borrow(), vec![7]);
    assert!(matches!(
        resolve_reply_to(home, Some(&mut pending), sent),
        Err(ReplyToError::NoPendingReply)
    ));
}

#[test]
fn a_destination_of_a_terminated_recipient_awaits_nothing() {
    let home = node(1);
    let mut reply_to = ReplyTo::new(|_: u8| ()).with_recipient(Some(ActorId::new()));
    let mut pending = PendingReplies::new();
    let mut minting = Minting::new();

    let sent = serialize_reply_to(home, Some(&mut pending), &mut minting, &mut reply_to, true)
        .expect("a fresh destination serializes");
    assert!(pending.take(sent.nonce).is_none());
}

#[test]
fn nothing_resolves_before_a_start() {
    let arrived = WireReplyTo {
        node: node(1),
        nonce: Nonce(0),
        recipient: None,
    };
    assert!(matches!(
        resolve_reply_to::<()>(node(1), None, arrived),
        Err(ReplyToError::EndpointNotStarted)
    ));
}

type Endpoint = tellus::cluster::endpoint::Endpoint<(), (), (), DeadlineFailureDetector, Deadline>;

fn queued(endpoint: &Endpoint, peer: NodeId) -> &Vec<Frame> {
    &endpoint
        .lanes()
        .lane(peer.addr())
        .expect("a lane is open")
        .control
}

#[test]
fn an_answer_which_cannot_be_sent_is_dropped_aloud() {
    let peer = node(2);
    let config = EndpointConfig::new(SocketAddr::v4(127, 0, 0, 1, 1));
    let deadline = Deadline::new(5_000_000_000).expect("5s is not zero");
    let mut endpoint: Endpoint = Endpoint::new(node(1), config, 0, deadline, NOW);
    endpoint.form_cluster().expect("an unformed endpoint forms");
    assert!(endpoint.membership_mut().add_up(peer, NOW));
    let to = WireReplyTo {
        node: peer,
        nonce: Nonce(3),
        recipient: None,
    };

    assert_eq!(endpoint.answer(to, Ok(vec![1]), Vec::new()), Ok(()));
    assert!(matches!(
        endpoint.answer(to, Err(CodecError::encoding("no")), Vec::new()),
        Err(RemoteSendError::Codec(_))
    ));
    let frames = queued(&endpoint, peer);
    assert_eq!(frames.len(), 2);
    assert!(matches!(&frames[0], Frame::Reply { nonce: Nonce(3), .. }));
    assert!(matches!(
        &frames[1],
        Frame::ReplyDropped { nonce: Nonce(3), recipient: None }
    ));

    endpoint.drop_reply(to);
    assert!(matches!(
        queued(&endpoint, peer).last(),
        Some(Frame::ReplyDropped { .. })
    ));
}

#[test]
fn watching_a_terminated_actor_signals_at_once() {
    let mut own: Mailbox<u8, ()> = Mailbox::new(MailboxCapacity::Unbounded);
    let mut watched: WatchedActors<()> = WatchedActors::new();
    let (this, alive, dead) = (ActorId::new(), ActorId::new(), ActorId::new());
    let mut running: WatcherRegistry<()> = WatcherRegistry::new();
    let mut terminated: WatcherRegistry<()> = WatcherRegistry::new();
    let _ = terminated.close();

    watch_local(&mut own, &mut watched, &mut running, alive, (), Watcher::new(this, ()));
    assert_eq!(
        next_incoming(&mut own, &mut watched, false),
        NextIncoming::Waiting
    );
    assert_eq!(running.close().len(), 1);

    assert!(own.try_send_message(1).is_ok());
    watch_local(&mut own, &mut watched, &mut terminated, dead, (), Watcher::new(this, ()));
    assert_eq!(
        next_incoming(&mut own, &mut watched, false),
        NextIncoming::Incoming(Incoming::Message(1))
    );
    assert_eq!(
        next_incoming(&mut own, &mut watched, false),
        NextIncoming::Incoming(Incoming::Terminated(dead))
    );
}

#[test]
fn a_recovery_begins_at_a_snapshot_it_can_read() {
    assert!(matches!(
        beginning::<u8, (), ()>(Ok(Some((Ok(5), SeqNo::new(3))))),
        Ok(Beginning::Snapshot(5, from)) if from == SeqNo::new(3)
    ));
    assert!(matches!(
        beginning::<u8, (), ()>(Ok(Some((Err(()), SeqNo::new(3))))),
        Ok(Beginning::Initial)
    ));
    assert!(matches!(
        beginning::<u8, (), ()>(Ok(None)),
        Ok(Beginning::Initial)
    ));
    assert!(matches!(
        beginning::<u8, (), &str>(Err("unreachable")),
        Err("unreachable")
    ));
}

#[test]
fn events_are_encoded_all_or_none() {
    let manifest = String::from("added");
    let version = SchemaVersion::new(2);
    let events = encode_events::<()>(&manifest, version, vec![Ok(vec![1]), Ok(vec![2, 3])])
        .expect("both encode");
    assert_eq!(
        events,
        vec![
            Encoded {
                manifest: manifest.clone(),
                schema_version: version,
                payload: vec![1],
            },
            Encoded {
                manifest: manifest.clone(),
                schema_version: version,
                payload: vec![2, 3],
            },
        ]
    );
    assert_eq!(
        encode_events(&manifest, version, vec![Ok(vec![1]), Err("second"), Err("third")]),
        Err("second")
    );
}

struct Counter;

impl EventSourced for Counter {
    type Event = u8;
    type State = u64;

    fn applied(&self, state: u64, event: u8) -> u64 {
        state + u64::from(event)
    }

    fn apply(&self, state: u64, event: u8) -> u64 {
        state + u64::from(event)
    }
}

#[test]
fn an_effect_runs_only_behind_its_events() {
    let settled = settle(&Counter, 1, SeqNo::zero(), vec![2, 3], true, false).expect("stored");
    let ran = continued(settled, true).expect("the effect ran");
    assert_eq!(ran.state, 6);
    assert_eq!(ran.next_seq_no, SeqNo::new(2));

    let settled = settle(&Counter, 1, SeqNo::zero(), vec![2, 3], true, false).expect("stored");
    assert!(continued(settled, false).is_none());
}

#[test]
fn a_loaded_snapshot_is_the_saved_one() {
    let mut store = InMemoryStore::default();
    let id = PersistenceId::new("laws", "loaded");
    assert!(store.load(&id).is_none());
    let saved = Encoded {
        manifest: "state".into(),
        schema_version: SchemaVersion::new(1),
        payload: vec![4],
    };
    store.save(&id, SeqNo::new(9), saved.clone());
    let loaded = store.load(&id).expect("a snapshot was saved");
    assert_eq!(loaded.snapshot, saved);
    assert_eq!(loaded.next_seq_no, SeqNo::new(9));
}

fn stored(payload: u8) -> Encoded {
    Encoded {
        manifest: "event".into(),
        schema_version: SchemaVersion::new(1),
        payload: vec![payload],
    }
}

#[test]
fn a_stale_writer_conflicts() {
    let mut store = InMemoryStore::default();
    let id = PersistenceId::new("laws", "fenced");
    let at = SeqNo::zero();
    assert_eq!(store.append(&id, at, vec![stored(1), stored(2)]), Ok(()));
    assert_eq!(
        store.append(&id, at, vec![stored(9)]),
        Err(AppendError::Conflict)
    );
    assert_eq!(
        store.append(&id, SeqNo::new(1), vec![stored(9)]),
        Err(AppendError::Conflict)
    );

    let read = store.read(&id, at, 8);
    assert_eq!(read.len(), 2);
    assert_eq!(read[0].event, stored(1));
    assert_eq!(read[1].event, stored(2));
    let page = store.read(&id, SeqNo::new(1), 8);
    assert_eq!(page.len(), 1);
    assert_eq!(page[0].seq_no, SeqNo::new(1));
}

#[test]
fn frames_leave_in_the_order_they_came() {
    let (peer, target) = (node(2), ActorId::new());
    let message = |payload: u8| Frame::Message {
        target,
        reply_tags: Vec::new(),
        payload: vec![payload],
    };
    let mut lanes = Lanes::new(3, 4);
    for payload in 0..3 {
        assert_eq!(lanes.route(peer, message(payload), true), Ok(()));
    }
    assert_eq!(
        lanes.route(peer, message(3), true),
        Err(LaneError::OutboundQueueFull(peer))
    );
    assert_eq!(
        lanes.route(peer, Frame::Terminated { target: ActorId(1), watcher: target }, true),
        Ok(())
    );

    let lane_id = lanes.dials()[0].lane_id;
    let stream = Some(stream_index(StreamKey::Actor(target), 4));
    assert_eq!(
        lanes.dequeue(peer.addr(), lane_id, stream),
        Some(message(0))
    );
    assert_eq!(lanes.route(peer, message(3), true), Ok(()));
    let mut rest = Vec::new();
    while let Some(frame) = lanes.dequeue(peer.addr(), lane_id, stream) {
        rest.push(frame);
    }
    assert_eq!(
        rest,
        vec![
            message(1),
            message(2),
            Frame::Terminated { target: ActorId(1), watcher: target },
            message(3),
        ]
    );
}

#[test]
fn a_lookup_answers_from_the_sets_of_up_members() {
    let (this, peer) = (node(1), node(2));
    let members = vec![
        Member::new(this, MemberState::Up),
        Member::new(peer, MemberState::Up),
    ];
    let mut receptionist = Receptionist::new(this, ClusterState::new(this, 1, members, Vec::new()));
    let key = WireKey::new("name", "type");
    let id = ActorId::new();
    let found = |entry: Entry| Ok::<ActorId, LocalRefError>(entry.id);

    assert_eq!(
        lookup(None, &[this, peer], &key, found),
        Err(ReceptionistError::EndpointNotStarted)
    );
    assert!(!receptionist.settled(1));
    assert_eq!(
        lookup(Some(&receptionist), &[this, peer], &key, found),
        Ok(Vec::new())
    );

    let registered = WireRegistration {
        key: key.clone(),
        id,
    };
    assert!(receptionist.apply(peer, 1, vec![registered.clone()], true));
    assert!(!receptionist.apply(peer, 1, vec![registered], true));
    assert!(receptionist.settled(1));
    assert_eq!(
        lookup(Some(&receptionist), &[this, peer], &key, found),
        Ok(vec![id])
    );
    assert_eq!(
        lookup(Some(&receptionist), &[this], &key, found),
        Ok(Vec::new())
    );
    assert_eq!(
        lookup(
            Some(&receptionist),
            &[this, peer],
            &WireKey::new("name", "other"),
            found
        ),
        Err(ReceptionistError::TypeMismatch)
    );

    receptionist.evict_fenced(peer);
    assert_eq!(
        lookup(Some(&receptionist), &[this, peer], &key, found),
        Ok(Vec::new())
    );
}
