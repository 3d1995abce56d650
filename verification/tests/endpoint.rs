use tellus::addr::{IpAddr, SocketAddr};
use tellus::cluster::addrs::AddrSet;
use tellus::cluster::admission::{Accepted, Admission};
use tellus::cluster::api;
use tellus::cluster::bootstrap::{Bootstrap, BootstrapConfig, BootstrapError, BootstrapStep};
use tellus::cluster::codec::CodecError;
use tellus::cluster::config::{
    validate, EndpointConfig, InvalidEndpointConfig, StartError,
};
use tellus::cluster::connect::{identity_binds, recv_handshake, send_handshake, ConnectError};
use tellus::cluster::coordinator::{Coordinator, FormError, Lifecycle};
use tellus::cluster::discovery::{LookupError, LookupResult, WireKey};
use tellus::cluster::downing::Downing;
use tellus::cluster::failure::{Deadline, DeadlineFailureDetector};
use tellus::cluster::formation::{Explicit, Formation, FormationProvider, JoinOutcome, Majority};
use tellus::cluster::frame::{
    Frame, Handshake, HandshakeError, HandshakeIntent, RefusalReason, StreamKey,
};
use tellus::cluster::joining::{check_seeds, JoinPass, JoinRound, JoinSnapshot, JoinStep};
use tellus::cluster::lanes::{stream_index, DialRequest, Generation, Lane, LaneError, Lanes};
use tellus::cluster::leave::{leave_outcome, Drain, LeaveError};
use tellus::cluster::membership;
use tellus::cluster::membership::{
    DownError, JoinError, Member, MemberState, MembersError, WireMember,
};
use tellus::cluster::observing::observe_round;
use tellus::cluster::peer::{write_frame, PeerAction, PeerTask, WriterEnd, Writing};
use tellus::cluster::reachability;
use tellus::cluster::reachability::{Reachability, WireReachability};
use tellus::cluster::reading::{Delivery, ReadEnd};
use tellus::cluster::receptionist::Receptionist;
use tellus::cluster::reply::ReplyTag;
use tellus::cluster::sink::{Envelope, RemoteSendError};
use tellus::cluster::state::{ClusterState, ClusterStateError};
use tellus::cluster::transport::{PeerIdentity, TransportError};
use tellus::ids::{ActorId, NodeId, Nonce};
use tellus::watch::Watcher;
use tellus::wire::DecodeError;

const SECS: u128 = 1_000_000_000;
const NOW: u128 = 1_000 * SECS;

type Endpoint = tellus::cluster::endpoint::Endpoint<
    &'static str,
    &'static str,
    &'static str,
    DeadlineFailureDetector,
    Deadline,
>;

fn addr(port: u16) -> SocketAddr {
    SocketAddr::v4(127, 0, 0, 1, port)
}

fn node(port: u16) -> NodeId {
    NodeId::new(addr(port))
}

fn endpoint_with(config: EndpointConfig) -> Endpoint {
    let node = NodeId::new(config.advertised_addr);
    let deadline = Deadline::new(5 * SECS).expect("5s is not zero");
    Endpoint::new(node, config, 0, deadline, NOW)
}

fn endpoint(port: u16) -> Endpoint {
    endpoint_with(EndpointConfig::new(addr(port)))
}

fn member_endpoint(port: u16, peers: &[NodeId]) -> Endpoint {
    let mut endpoint = endpoint(port);
    endpoint.form_cluster().expect("an unformed endpoint forms");
    for peer in peers {
        assert!(endpoint.membership_mut().add_up(*peer, NOW));
    }
    endpoint
}

fn gossip() -> Frame {
    Frame::Gossip {
        members: Vec::new(),
        more: false,
    }
}

fn message(target: ActorId) -> Frame {
    Frame::Message {
        target,
        reply_tags: Vec::new(),
        payload: Vec::new(),
    }
}

fn lane(streams: usize) -> Lane {
    Lane {
        id: Generation(0),
        peer: None,
        connected: false,
        closed: false,
        counted: 0,
        control: Vec::new(),
        data: (0..streams).map(|_| Vec::new()).collect(),
    }
}

/// Opens the first lane, with nothing queued.
fn open_lane(lanes: &mut Lanes, peer: NodeId) {
    lanes.route(peer, gossip(), true).expect("a lane is opened");
    assert!(lanes.dequeue(peer.addr(), Generation(0), None).is_some());
}

fn queued_to(endpoint: &Endpoint, addr: SocketAddr) -> &Vec<Frame> {
    &endpoint
        .lanes()
        .lane(addr)
        .expect("a lane is open")
        .control
}

#[test]
fn nonce_streams_use_the_nonce_value_directly() {
    let mut next = 0;
    let indices = (0..8)
        .map(|_| stream_index(StreamKey::Nonce(Nonce::mint(&mut next)), 8))
        .collect::<Vec<_>>();
    assert_eq!(indices, (0..8).collect::<Vec<_>>());
}

#[test]
fn a_refused_address_is_not_redialed_per_frame() {
    let peer = node(2);
    let mut endpoint = member_endpoint(1, &[peer]);
    endpoint.refuse(peer.addr());

    for _ in 0..2 {
        assert!(matches!(
            endpoint.send(peer, gossip()),
            Err(LaneError::NodeUnreachable(node)) if node == peer
        ));
    }
    assert!(endpoint.lanes().dials().is_empty());

    endpoint.unrefuse(peer.addr());
    endpoint
        .send(peer, gossip())
        .expect("an address can be retried after it is explicitly unrefused");
    assert_eq!(endpoint.lanes().dials().len(), 1);
}

#[test]
fn a_reconnect_snapshot_transfers_established_observations() {
    let relay = node(2);
    let subject = node(3);
    let reconnecting_node = node(4);
    let mut endpoint = member_endpoint(1, &[relay, subject, reconnecting_node]);
    let members = [endpoint.node(), relay, subject, reconnecting_node];

    endpoint.reachability_mut().observe(subject, false);
    endpoint.reachability_mut().merge(
        &[WireReachability {
            observer: relay,
            subject,
            version: 1,
            reachable: false,
        }],
        &members,
    );

    let observations = endpoint
        .reachability_snapshot_frames()
        .into_iter()
        .flat_map(|frame| match frame {
            Frame::Reachability { observations } => observations,
            frame => panic!("a reachability snapshot holds no {frame:?}"),
        })
        .collect::<Vec<_>>();

    let mut reconnecting = Reachability::new(reconnecting_node);
    reconnecting.observe(subject, false);
    let all = members
        .iter()
        .map(|node| Member::new(*node, MemberState::Up))
        .collect::<Vec<_>>();
    assert!(reconnecting.unreachable_members(&all, NOW).is_empty());

    reconnecting.merge(&observations, &members);

    let outside = reconnecting
        .unreachable_members(&all, NOW)
        .iter()
        .map(|(member, _)| member.node())
        .collect::<Vec<_>>();
    assert_eq!(outside, vec![subject]);
}

#[test]
fn a_reachability_push_skips_a_disconnected_lane() {
    let silent = node(2);
    let fresh = node(3);
    let mut endpoint = member_endpoint(1, &[silent, fresh]);

    endpoint.send(silent, gossip()).expect("the lane is opened");
    assert_eq!(endpoint.lanes().dials().len(), 1);
    assert_eq!(endpoint.lane_connected(silent.addr()), Some(false));

    let own = endpoint.node();
    endpoint.push_reachability(vec![WireReachability {
        observer: own,
        subject: silent,
        version: 1,
        reachable: false,
    }]);

    assert_eq!(queued_to(&endpoint, silent.addr()).len(), 1);
    assert_eq!(endpoint.lanes().dials().len(), 2);
    assert_eq!(endpoint.lanes().dials()[1].addr, fresh.addr());
}

#[test]
fn a_frame_for_another_incarnation_is_refused() {
    let peer = node(2552);
    let mut lanes = Lanes::new(16, 0);
    lanes
        .route(peer, gossip(), true)
        .expect("a reachable peer's lane is opened");
    lanes.bind(peer.addr(), Generation(0), peer, false);

    assert!(lanes.route(peer, gossip(), false).is_ok());

    let successor = node(2552);
    assert!(matches!(
        lanes.route(successor, gossip(), true),
        Err(LaneError::NodeUnreachable(_))
    ));

    let unknown = node(2553);
    assert!(lanes.lane(unknown.addr()).is_none());
    assert!(lanes.route(unknown, gossip(), true).is_ok());
}

#[test]
fn a_lane_is_drained_once_every_queue_is_empty() {
    let peer = node(2552);
    let mut lanes = Lanes::new(16, 2);
    open_lane(&mut lanes, peer);
    let id = Generation(0);
    let target = ActorId::new();

    assert!(lanes.all_drained(), "a fresh lane has nothing queued");

    lanes.route(peer, gossip(), true).expect("the queue is open");
    assert!(!lanes.all_drained());
    assert!(lanes.dequeue(peer.addr(), id, None).is_some());
    assert!(lanes.all_drained());

    lanes
        .route(peer, message(target), true)
        .expect("the queue is open");
    assert!(!lanes.all_drained());
    for stream in 0..2 {
        while lanes.dequeue(peer.addr(), id, Some(stream)).is_some() {}
    }
    assert!(lanes.all_drained());
}

#[test]
fn without_data_streams_everything_rides_the_control_stream() {
    let peer = node(2552);
    let mut lane = lane(0);
    let (target, watcher) = (ActorId::new(), ActorId::new());

    assert!(lane.data.is_empty(), "the lane has no data streams");

    for frame in [
        message(target),
        Frame::Terminated { target, watcher },
        Frame::Watch { target, watcher },
        gossip(),
    ] {
        lane.queue(frame, 16, peer).expect("the queue is open");
    }

    assert_eq!(lane.control.len(), 4);
}

#[test]
fn a_terminated_signal_shares_its_watchers_stream() {
    let peer = node(2552);
    let mut lane = lane(8);
    let watcher = ActorId::new();

    lane.queue(message(watcher), 16, peer)
        .expect("the queue is open");
    lane.queue(
        Frame::Terminated {
            target: ActorId::new(),
            watcher,
        },
        16,
        peer,
    )
    .expect("the queue is open");

    assert_eq!(
        lane.data[stream_index(StreamKey::Actor(watcher), 8)].len(),
        2
    );
    assert!(lane.control.is_empty());
}

#[test]
fn per_node_frames_stay_on_the_control_stream() {
    let peer = node(2552);
    let mut lane = lane(8);
    let (target, watcher) = (ActorId::new(), ActorId::new());

    for frame in [
        Frame::Watch { target, watcher },
        Frame::Unwatch { target, watcher },
        gossip(),
    ] {
        lane.queue(frame, 16, peer).expect("the queue is open");
    }

    assert_eq!(lane.control.len(), 3);
    assert!(lane.data.iter().all(Vec::is_empty));
}

#[test]
fn messages_are_counted_against_the_outbound_capacity_and_system_frames_bypass_it() {
    let peer = node(2552);
    let mut lane = lane(0);
    let (target, watcher) = (ActorId::new(), ActorId::new());

    assert!(lane.queue(message(target), 1, peer).is_ok());
    assert!(matches!(
        lane.queue(message(target), 1, peer),
        Err(LaneError::OutboundQueueFull(full)) if full == peer
    ));

    assert!(lane
        .queue(Frame::Terminated { target, watcher }, 1, peer)
        .is_ok());
    assert!(lane
        .queue(Frame::Watch { target, watcher }, 1, peer)
        .is_ok());
    assert!(lane.queue(gossip(), 1, peer).is_ok());

    assert_eq!(lane.control.len(), 4);
}

#[test]
fn a_dequeued_message_frees_its_slot() {
    let peer = node(2552);
    let mut lanes = Lanes::new(1, 0);
    let target = ActorId::new();
    assert!(lanes.route(peer, message(target), true).is_ok());
    assert!(lanes.route(peer, message(target), true).is_err());
    assert!(lanes
        .dequeue(peer.addr(), Generation(0), None)
        .is_some());
    assert!(lanes.route(peer, message(target), true).is_ok());
}

#[test]
fn an_invalid_config_is_refused() {
    let required_min = membership::MIN_FRAME_SIZE.max(reachability::MIN_FRAME_SIZE);
    let mut config = EndpointConfig::new(addr(2552));
    config.max_frame_size = required_min - 1;

    assert!(matches!(
        validate(&config),
        Err(InvalidEndpointConfig::MaxFrameSizeTooSmall { max_frame_size, min })
            if max_frame_size == required_min - 1
                && min == required_min
    ));

    config.max_frame_size = required_min;
    assert!(validate(&config).is_ok());

    config.heartbeat_interval = 0;
    assert!(matches!(
        validate(&config),
        Err(InvalidEndpointConfig::ZeroHeartbeatInterval)
    ));

    config.heartbeat_interval = EndpointConfig::DEFAULT_HEARTBEAT_INTERVAL;
    config.watch_refresh_interval = 0;
    assert!(matches!(
        validate(&config),
        Err(InvalidEndpointConfig::ZeroWatchRefreshInterval)
    ));
}

#[test]
fn a_disconnected_lane_reports_the_node_unreachable() {
    let peer = node(2552);
    let mut lane = lane(0);
    let target = ActorId::new();
    lane.closed = true;

    assert!(matches!(
        lane.queue(message(target), 1, peer),
        Err(LaneError::NodeUnreachable(unreachable)) if unreachable == peer
    ));
    assert!(matches!(
        lane.queue(gossip(), 1, peer),
        Err(LaneError::NodeUnreachable(unreachable)) if unreachable == peer
    ));
}

#[test]
fn binding_a_tombstoned_peer_removes_the_lane() {
    let peer = node(2552);
    let mut lanes = Lanes::new(16, 0);
    open_lane(&mut lanes, peer);

    lanes.bind(peer.addr(), Generation(0), peer, true);

    assert_eq!(lanes.len(), 0);
}

#[test]
fn binding_names_the_peer_and_spares_other_lanes() {
    let peer = node(2552);
    let mut lanes = Lanes::new(16, 0);
    open_lane(&mut lanes, peer);

    lanes.bind(peer.addr(), Generation(0), peer, false);
    let bound = |lanes: &Lanes| lanes.lane(addr(2552)).and_then(|lane| lane.peer);
    assert_eq!(bound(&lanes), Some(peer));

    lanes.bind(peer.addr(), Generation(1), node(2552), true);
    assert_eq!(bound(&lanes), Some(peer));

    lanes.bind(addr(2553), Generation(0), peer, true);
    assert_eq!(lanes.len(), 1);
}

#[test]
fn an_endpoint_forms_once() {
    let mut coordinator = Coordinator::default();

    assert!(matches!(coordinator.form(), Ok(Lifecycle::Formed)));
    assert!(matches!(coordinator.form(), Err(FormError::AlreadyFormed)));
}

#[test]
fn a_join_in_flight_postpones_forming() {
    let mut coordinator = Coordinator {
        join_in_flight: true,
        ..Default::default()
    };

    assert!(matches!(coordinator.form(), Err(FormError::JoinInFlight)));

    coordinator.finish_join(addr(1), Err(ConnectError::Closed));
    assert!(matches!(coordinator.form(), Ok(Lifecycle::Formed)));
}

#[test]
fn a_pinned_cluster_postpones_forming() {
    let mut coordinator = Coordinator {
        pinned: Some(addr(1)),
        ..Default::default()
    };

    assert!(matches!(
        coordinator.form(),
        Err(FormError::ClusterPinned(_))
    ));
}

#[test]
fn a_completed_join_makes_a_member_and_releases_the_pin() {
    let mut coordinator = Coordinator {
        join_in_flight: true,
        pinned: Some(addr(1)),
        ..Default::default()
    };

    let finished = coordinator.finish_join(addr(1), Ok(()));
    assert!(finished.result.is_ok());
    assert!(!finished.newly_downed);
    assert_eq!(coordinator.lifecycle, Lifecycle::Formed);
    assert_eq!(coordinator.pinned, None);
    assert!(!coordinator.join_in_flight);

    let finished = coordinator.finish_join(addr(1), Ok(()));
    assert!(finished.result.is_ok());
    assert_eq!(coordinator.lifecycle, Lifecycle::Formed);
}

#[test]
fn a_join_completing_after_a_down_reports_the_down() {
    let mut coordinator = Coordinator {
        join_in_flight: true,
        ..Default::default()
    };
    assert!(coordinator.down());

    let finished = coordinator.finish_join(addr(1), Ok(()));
    assert!(matches!(finished.result, Err(ConnectError::SelfDowned)));
    assert!(!finished.newly_downed);
    assert_eq!(coordinator.lifecycle, Lifecycle::Downed);
}

#[test]
fn a_refusal_as_dead_downs_atomically_with_the_release() {
    let mut coordinator = Coordinator {
        join_in_flight: true,
        pinned: Some(addr(1)),
        ..Default::default()
    };

    let finished =
        coordinator.finish_join(addr(1), Err(ConnectError::Refused(RefusalReason::Down)));
    assert!(matches!(
        finished.result,
        Err(ConnectError::Refused(RefusalReason::Down))
    ));
    assert!(finished.newly_downed);
    assert_eq!(coordinator.lifecycle, Lifecycle::Downed);
    assert_eq!(coordinator.pinned, None);
    assert!(!coordinator.join_in_flight);
    assert!(matches!(coordinator.form(), Err(FormError::Downed)));

    let finished =
        coordinator.finish_join(addr(1), Err(ConnectError::Refused(RefusalReason::Down)));
    assert!(!finished.newly_downed);
}

#[test]
fn only_the_pinned_address_answering_no_cluster_releases_the_pin() {
    let mut coordinator = Coordinator {
        join_in_flight: true,
        pinned: Some(addr(1)),
        ..Default::default()
    };

    coordinator.finish_join(addr(1), Err(ConnectError::Closed));
    assert_eq!(coordinator.pinned, Some(addr(1)));

    coordinator.finish_join(
        addr(2),
        Err(ConnectError::Refused(RefusalReason::NoCluster)),
    );
    assert_eq!(coordinator.pinned, Some(addr(1)));

    coordinator.finish_join(
        addr(1),
        Err(ConnectError::Refused(RefusalReason::NoCluster)),
    );
    assert_eq!(coordinator.pinned, None);
}

fn set(addrs: &[SocketAddr]) -> AddrSet {
    let mut set = AddrSet::new();
    for addr in addrs {
        set.insert(*addr);
    }
    set
}

#[test]
fn a_pin_discovery_dropped_is_released_only_between_attempts() {
    let universe = set(&[addr(2), addr(3)]);
    let mut coordinator = Coordinator {
        join_in_flight: true,
        pinned: Some(addr(1)),
        ..Default::default()
    };

    assert_eq!(coordinator.release_pin_if_gone(&universe), None);
    assert_eq!(coordinator.pinned, Some(addr(1)));

    coordinator.finish_join(addr(1), Err(ConnectError::Closed));
    assert_eq!(coordinator.release_pin_if_gone(&universe), Some(addr(1)));
    assert_eq!(coordinator.pinned, None);

    coordinator.pinned = Some(addr(2));
    assert_eq!(coordinator.release_pin_if_gone(&universe), None);
    assert_eq!(coordinator.pinned, Some(addr(2)));
}

#[test]
fn a_down_dominates_every_stage_of_a_join() {
    let mut coordinator = Coordinator::default();
    assert!(coordinator.enter_join());
    assert!(coordinator.down());
    assert!(matches!(coordinator.form(), Err(FormError::Downed)));

    coordinator.pin(addr(1));
    assert_eq!(coordinator.pinned, None);

    let finished = coordinator.finish_join(addr(1), Err(ConnectError::Closed));
    assert!(matches!(finished.result, Err(ConnectError::SelfDowned)));
    assert!(!finished.newly_downed);
    assert_eq!(coordinator.pinned, None);
    assert!(!coordinator.join_in_flight);

    assert!(!coordinator.enter_join());
    assert!(matches!(coordinator.form(), Err(FormError::Downed)));
}

fn peer() -> NodeId {
    node(1234)
}

fn identity(ip_addresses: &[IpAddr]) -> Option<PeerIdentity> {
    Some(PeerIdentity {
        dns_names: Vec::new(),
        ip_addresses: ip_addresses.to_vec(),
    })
}

#[test]
fn an_unproven_identity_binds_every_address() {
    assert!(identity_binds(peer(), &None));
}

#[test]
fn an_identity_binds_only_its_own_addresses() {
    let peer = peer();
    let own = peer.addr().ip();
    let other = SocketAddr::v4(10, 0, 0, 1, 1).ip();

    assert!(identity_binds(peer, &identity(&[own])));
    assert!(identity_binds(peer, &identity(&[other, own])));

    assert!(!identity_binds(peer, &identity(&[other])));
    assert!(!identity_binds(peer, &identity(&[])));
}

#[test]
fn dns_names_do_not_bind_an_address() {
    let identity = PeerIdentity {
        dns_names: vec!["node.example.com".to_string()],
        ip_addresses: Vec::new(),
    };

    assert!(!identity_binds(peer(), &Some(identity)));
}

#[test]
fn only_transient_failures_are_retried() {
    assert!(ConnectError::Transport(TransportError::other("boom")).is_retryable());
    assert!(ConnectError::Closed.is_retryable());
    assert!(ConnectError::DataStreams(1).is_retryable());
    assert!(ConnectError::HandshakeTimeout.is_retryable());
    assert!(ConnectError::Refused(RefusalReason::UnknownMember).is_retryable());

    assert!(
        !ConnectError::Transport(TransportError::FrameTooLarge { len: 2, max: 1 }).is_retryable()
    );

    assert!(!ConnectError::NotAHandshake.is_retryable());
    assert!(!ConnectError::Decode(DecodeError::UnexpectedEnd).is_retryable());
    assert!(!ConnectError::Handshake(HandshakeError::Magic(0)).is_retryable());
    assert!(!ConnectError::Handshake(HandshakeError::ProtocolVersion(u16::MAX)).is_retryable());
    assert!(!ConnectError::Refused(RefusalReason::Down).is_retryable());
}

#[test]
fn handshakes_exchange_within_the_deadline() {
    let announced = peer();

    let sent = send_handshake(announced, HandshakeIntent::Member);
    assert_eq!(
        sent,
        Frame::Handshake(Handshake::new(announced, HandshakeIntent::Member))
            .encode_into(Vec::new())
    );
    let (exchanged, intent) = recv_handshake(Ok(Some(sent))).expect("handshakes are exchanged");

    assert_eq!(exchanged, announced);
    assert_eq!(intent, HandshakeIntent::Member);
}

#[test]
fn an_oversize_frame_dies_in_the_writer() {
    let oversize = Frame::Message {
        target: ActorId::new(),
        reply_tags: Vec::new(),
        payload: vec![0; 64],
    };

    assert!(matches!(
        write_frame(oversize, 32),
        Writing::Oversize(Frame::Message { .. })
    ));
    match write_frame(gossip(), 32) {
        Writing::Send { bytes, frame } => {
            assert_eq!(bytes, gossip().encode_into(Vec::new()));
            assert_eq!(frame, gossip());
        }
        other => panic!("not sent: {other:?}"),
    }
}

#[test]
fn aborting_a_sibling_writer_dead_letters_its_in_flight_frame() {
    let target = ActorId::new();
    let asked = node(2);
    let mut endpoint = member_endpoint(1, &[asked]);
    let nonce = endpoint.pending_replies_mut().add("sink", None, false);
    let tag = ReplyTag {
        nonce,
        recipient: None,
    };
    let in_flight = Frame::Message {
        target,
        reply_tags: vec![tag],
        payload: Vec::new(),
    };

    assert_eq!(endpoint.dead_letter(&in_flight), Some(target));
    assert!(endpoint.pending_replies_mut().take(nonce).is_none());

    let queued = endpoint.pending_replies_mut().add("sink", None, false);
    endpoint.drain_dead_letters(&vec![
        gossip(),
        Frame::Message {
            target,
            reply_tags: vec![ReplyTag {
                nonce: queued,
                recipient: None,
            }],
            payload: Vec::new(),
        },
    ]);
    assert!(endpoint.pending_replies_mut().take(queued).is_none());
    assert_eq!(endpoint.dead_letter(&gossip()), None);
}

#[test]
fn handshake_is_accepted_from_a_tellus_node() {
    let peer = peer();
    let bytes =
        Frame::Handshake(Handshake::new(peer, HandshakeIntent::Join)).encode_into(Vec::new());

    let (handshaked, intent) = recv_handshake(Ok(Some(bytes))).expect("handshake is accepted");
    assert_eq!(handshaked, peer);
    assert_eq!(intent, HandshakeIntent::Join);
}

#[test]
fn a_closed_connection_is_reported_as_such() {
    assert!(matches!(
        recv_handshake(Ok(None)),
        Err(ConnectError::Closed)
    ));
    assert!(matches!(
        recv_handshake(Err(TransportError::other("boom"))),
        Err(ConnectError::Transport(_))
    ));
}

#[test]
fn a_first_frame_other_than_a_handshake_is_rejected() {
    assert!(matches!(
        recv_handshake(Ok(Some(gossip().encode_into(Vec::new())))),
        Err(ConnectError::NotAHandshake)
    ));
}

#[test]
fn a_refused_handshake_surfaces_its_reason() {
    let bytes = Frame::Refused {
        reason: RefusalReason::Down,
    }
    .encode_into(Vec::new());

    assert!(matches!(
        recv_handshake(Ok(Some(bytes))),
        Err(ConnectError::Refused(RefusalReason::Down))
    ));
}

#[test]
fn an_undecodable_first_frame_is_rejected() {
    assert!(matches!(
        recv_handshake(Ok(Some(vec![0xff; 8]))),
        Err(ConnectError::Decode(_))
    ));
}

#[test]
fn an_unformed_endpoint_refuses_joins_as_no_cluster() {
    let mut endpoint = endpoint(1);
    let joiner = node(2);

    assert!(matches!(
        endpoint.admit_inbound(joiner, HandshakeIntent::Join, &None, NOW),
        Admission::Refuse(RefusalReason::NoCluster)
    ));

    endpoint.form_cluster().expect("an unformed endpoint forms");
    assert!(matches!(
        endpoint.admit_inbound(joiner, HandshakeIntent::Join, &None, NOW),
        Admission::Admit
    ));
    assert!(endpoint.membership().is_up(joiner));
}

/// One join pass over a single seed, whose answers are given.
fn pass(endpoint: &mut Endpoint, seed: SocketAddr, pages: Vec<Option<Frame>>) -> JoinStep {
    let mut pass = JoinPass::begin(endpoint, &vec![seed]);
    let JoinStep::Try(tried) = pass.next(endpoint) else {
        panic!("no attempt is made");
    };
    assert_eq!(tried, seed);
    assert!(endpoint.enter_join());
    let answer = recv_handshake(Ok(Some(send_handshake(
        NodeId::new(seed),
        HandshakeIntent::Member,
    ))));
    let answered = endpoint.on_join_answered(seed, answer, &None);
    let mut result = answered.map(|_| ());
    if result.is_ok() {
        let mut snapshot = JoinSnapshot::new();
        for page in pages {
            let bytes = page.map(|frame| frame.encode_into(Vec::new()));
            match snapshot.on_page(Ok(bytes)) {
                Ok(false) => continue,
                Ok(true) => {
                    endpoint.on_gossip(&snapshot.members, NOW);
                    break;
                }
                Err(error) => {
                    result = Err(error);
                    break;
                }
            }
        }
    }
    let finished = endpoint.finish_join(seed, result, NOW);
    pass.on_tried(endpoint, seed, finished)
}

#[test]
fn a_truncated_snapshot_is_cluster_seen_and_applies_nothing() {
    let mut endpoint = endpoint(1);
    let seed = addr(2);
    let page = Frame::Gossip {
        members: vec![WireMember {
            node: node(9),
            state: MemberState::Up,
        }],
        more: true,
    };

    let step = pass(&mut endpoint, seed, vec![Some(page), None]);

    assert!(matches!(
        step,
        JoinStep::Over(Ok(JoinRound::ClusterSeen(pinned))) if pinned == seed
    ));
    assert_eq!(endpoint.pinned_cluster(), Some(seed));
    assert!(!endpoint.formed());
    let members = endpoint.membership().members();
    assert_eq!(members.len(), 1);
    assert_eq!(members[0].addr(), addr(1));
    assert_eq!(members[0].state(), MemberState::Up);
    assert!(matches!(
        endpoint.form_cluster(),
        Err(FormError::ClusterPinned(pinned)) if pinned == seed
    ));
}

#[test]
fn a_cancelled_caller_cannot_discard_earned_evidence() {
    let mut endpoint = endpoint(1);
    let seed = addr(2);

    pass(&mut endpoint, seed, vec![None]);

    assert!(matches!(
        endpoint.form_cluster(),
        Err(FormError::ClusterPinned(pinned)) if pinned == seed
    ));
    assert!(!endpoint.formed());
}

#[test]
fn a_hung_connect_is_released_with_its_caller() {
    let mut endpoint = endpoint(1);
    assert!(endpoint.enter_join());

    assert!(matches!(
        endpoint.form_cluster(),
        Err(FormError::JoinInFlight)
    ));

    assert!(endpoint
        .finish_join(addr(2), Err(ConnectError::Abandoned), NOW)
        .is_err());
    assert!(endpoint.form_cluster().is_ok());
}

#[test]
fn a_second_join_waits_for_the_first() {
    let endpoint = endpoint(1);
    let mut pass = JoinPass::begin(&endpoint, &vec![addr(2), addr(1), addr(3)]);

    assert!(matches!(pass.next(&endpoint), JoinStep::Try(first) if first == addr(2)));
    assert!(matches!(
        pass.on_tried(
            &endpoint,
            addr(2),
            Err(ConnectError::Refused(RefusalReason::NoCluster))
        ),
        JoinStep::Try(second) if second == addr(3)
    ));
    let JoinStep::Over(Ok(JoinRound::NoAdmission(outcomes))) =
        pass.on_tried(&endpoint, addr(3), Err(ConnectError::Closed))
    else {
        panic!("every seed was tried");
    };
    assert_eq!(
        outcomes,
        vec![
            (addr(2), JoinOutcome::NoCluster),
            (addr(3), JoinOutcome::Unavailable)
        ]
    );
}

#[test]
fn a_snapshot_downing_this_incarnation_returns_downed() {
    let mut endpoint = endpoint(1);
    let seed = addr(2);
    let own = endpoint.node();
    let page = Frame::Gossip {
        members: vec![
            WireMember {
                node: NodeId::new(seed),
                state: MemberState::Up,
            },
            WireMember {
                node: own,
                state: MemberState::Down,
            },
        ],
        more: false,
    };

    let step = pass(&mut endpoint, seed, vec![Some(page)]);

    assert!(matches!(step, JoinStep::Over(Err(JoinError::Downed))));
    assert!(endpoint.downed());
    assert!(matches!(endpoint.form_cluster(), Err(FormError::Downed)));
}

#[test]
fn a_whole_snapshot_makes_a_member() {
    let mut endpoint = endpoint(1);
    let seed = addr(2);
    let (first, second) = (node(9), node(10));
    let page = |member: NodeId, more: bool| {
        Some(Frame::Gossip {
            members: vec![WireMember {
                node: member,
                state: MemberState::Up,
            }],
            more,
        })
    };

    let step = pass(
        &mut endpoint,
        seed,
        vec![page(first, true), page(second, false)],
    );

    assert!(matches!(step, JoinStep::Over(Ok(JoinRound::Joined))));
    assert!(endpoint.formed());
    assert_eq!(endpoint.pinned_cluster(), None);
    assert!(endpoint.membership().is_up(first));
    assert!(endpoint.membership().is_up(second));
    assert!(matches!(
        check_seeds(&vec![addr(1)], addr(1)),
        Err(JoinError::NoSeeds)
    ));
    assert!(check_seeds(&vec![addr(1), addr(2)], addr(1)).is_ok());
}

#[test]
fn a_bootstrap_settles_joins_and_forms() {
    let mut endpoint = endpoint(1);
    let mut config = BootstrapConfig::new();
    config.settle = SECS;
    let mut bootstrap = Bootstrap::begin(config, true).expect("the config is valid");
    let resolved = vec![addr(1), addr(2)];
    assert!(matches!(bootstrap.next(&endpoint), BootstrapStep::Resolve));
    assert!(matches!(
        bootstrap.on_resolved(&mut endpoint, &vec![addr(1)], NOW),
        BootstrapStep::Wait
    ));
    assert!(matches!(
        bootstrap.on_resolved(&mut endpoint, &resolved, NOW),
        BootstrapStep::Wait
    ));
    let BootstrapStep::Join { universe, seeds } =
        bootstrap.on_resolved(&mut endpoint, &resolved, NOW + SECS)
    else {
        panic!("the universe has settled");
    };
    assert_eq!(seeds, vec![addr(2)]);
    let BootstrapStep::Decide(formation) = bootstrap.on_round(
        &endpoint,
        universe,
        Ok(JoinRound::NoAdmission(vec![(
            addr(2),
            JoinOutcome::NoCluster,
        )])),
    ) else {
        panic!("nobody admitted this node");
    };
    assert!(matches!(
        bootstrap.decide(&mut endpoint, &mut Majority, &formation),
        BootstrapStep::Done(Ok(()))
    ));
    assert!(endpoint.formed());

    endpoint.self_down(NOW);
    assert!(matches!(
        bootstrap.next(&endpoint),
        BootstrapStep::Done(Err(BootstrapError::Downed))
    ));
}

#[test]
fn a_lane_is_dialed_served_and_given_up() {
    let mut config = EndpointConfig::new(addr(1));
    config.max_connect_attempts = 2;
    let mut endpoint = endpoint_with(config);
    endpoint.form_cluster().expect("an unformed endpoint forms");
    let peer = node(2);
    endpoint.membership_mut().add_up(peer, NOW);
    endpoint.send(peer, gossip()).expect("the lane is opened");
    let request = endpoint.lanes().dials()[0];
    assert_eq!(
        request,
        DialRequest {
            addr: peer.addr(),
            lane_id: Generation(0)
        }
    );

    let mut task = PeerTask::new(request);
    assert_eq!(
        task.on_dialed(&mut endpoint, Err(ConnectError::Closed), NOW),
        PeerAction::Wait(EndpointConfig::DEFAULT_RECONNECT_BACKOFF_MIN)
    );
    assert_eq!(task.on_waited(&endpoint), PeerAction::Dial);
    assert_eq!(
        task.on_dialed(&mut endpoint, Ok((peer, None)), NOW),
        PeerAction::Serve(peer)
    );
    assert_eq!(endpoint.lane_connected(peer.addr()), Some(true));

    assert_eq!(
        task.on_lost(&mut endpoint, peer, WriterEnd::ConnectionLost, NOW + SECS),
        PeerAction::Dial
    );
    assert_eq!(
        task.on_dialed(&mut endpoint, Ok((peer, None)), NOW + SECS),
        PeerAction::Serve(peer)
    );
    assert!(matches!(
        task.on_lost(&mut endpoint, peer, WriterEnd::ConnectionLost, NOW + SECS + 1),
        PeerAction::Wait(_)
    ));
    assert_eq!(endpoint.lane_connected(peer.addr()), Some(false));
    for _ in 0..10 {
        assert!(matches!(
            task.on_dialed(&mut endpoint, Err(ConnectError::Closed), NOW),
            PeerAction::Wait(_)
        ));
    }

    endpoint.node_death(peer, NOW);
    assert_eq!(task.on_waited(&endpoint), PeerAction::Stop);
    let mut orphan = PeerTask::new(request);
    assert!(matches!(
        orphan.on_dialed(&mut endpoint, Err(ConnectError::Closed), NOW),
        PeerAction::Wait(_)
    ));
    assert_eq!(
        orphan.on_dialed(&mut endpoint, Err(ConnectError::Closed), NOW),
        PeerAction::Stop
    );
}

#[test]
fn an_address_which_does_not_speak_is_refused() {
    let peer = node(2);
    let mut endpoint = member_endpoint(1, &[peer]);
    endpoint.send(peer, gossip()).expect("the lane is opened");
    let mut task = PeerTask::new(endpoint.lanes().dials()[0]);
    assert_eq!(
        task.on_dialed(&mut endpoint, Err(ConnectError::NotAHandshake), NOW),
        PeerAction::Stop
    );
    assert!(endpoint.end_task(&task).is_some());
    assert!(matches!(
        endpoint.send(peer, gossip()),
        Err(LaneError::NodeUnreachable(_))
    ));
}

#[test]
fn a_death_leaves_nothing_behind() {
    let (peer, other) = (node(2), node(3));
    let mut endpoint = member_endpoint(1, &[peer, other]);
    let (watcher, target) = (ActorId::new(), ActorId::new());
    endpoint.watch_remote(peer, target, Watcher::new(watcher, "handler"));
    let nonce = endpoint
        .begin_lookup(WireKey::new("pool", "u64"), peer.addr(), "lookup")
        .expect("the peer is Up");
    let asked = endpoint.pending_replies_mut().add("reply", None, false);
    endpoint.pending_replies_mut().stamp(
        &[ReplyTag {
            nonce: asked,
            recipient: None,
        }],
        peer,
    );
    endpoint.track_liveness(peer, NOW);

    endpoint.node_death(peer, NOW);

    assert!(endpoint.membership().is_down(peer));
    let mut signals = endpoint.take_effects().signals;
    assert_eq!(signals.len(), 1);
    assert_eq!(signals[0].0, target);
    assert_eq!(signals[0].1.watcher_id(), watcher);
    assert!(endpoint.pending_lookups_mut().cancel(nonce).is_none());
    assert!(endpoint.pending_replies_mut().take(asked).is_none());
    assert!(endpoint.liveness_mut().is_available(peer, NOW + 100 * SECS));
    assert!(matches!(
        endpoint.begin_lookup(WireKey::new("pool", "u64"), peer.addr(), "lookup"),
        Err(LookupError::NotAMember(_))
    ));

    endpoint.watch_remote(peer, target, Watcher::new(watcher, "handler"));
    signals.extend(endpoint.take_effects().signals);
    assert_eq!(signals.len(), 2, "a dead node's actor is dead");
    assert!(endpoint.take_effects().signals.is_empty());
}

#[test]
fn a_watch_is_registered_once_and_ends_with_its_target() {
    let peer = node(2);
    let mut endpoint = member_endpoint(1, &[peer]);
    let (target, first, second) = (ActorId::new(), ActorId::new(), ActorId::new());
    assert!(endpoint.on_watch(peer, target, first));
    assert!(!endpoint.on_watch(peer, target, second));
    let wire_watcher = ActorId::new();
    endpoint.finish_watch(peer, target, Some(wire_watcher));
    endpoint.on_unwatch(peer, target, first);
    assert!(endpoint.take_effects().released.is_empty());
    assert!(endpoint.handle_wire_terminated(peer, target).is_ok());
    assert!(queued_to(&endpoint, peer.addr()).contains(&Frame::Terminated {
        target,
        watcher: second
    }));
    assert!(!queued_to(&endpoint, peer.addr()).contains(&Frame::Terminated {
        target,
        watcher: first
    }));

    let unknown = ActorId::new();
    assert!(endpoint.on_watch(peer, unknown, first));
    endpoint.finish_watch(peer, unknown, None);
    assert!(queued_to(&endpoint, peer.addr()).contains(&Frame::Terminated {
        target: unknown,
        watcher: first
    }));
}

#[test]
fn frames_are_taken_by_their_kind() {
    let (peer, stranger) = (node(2), node(3));
    let mut endpoint = member_endpoint(1, &[peer]);
    let read = |endpoint: &mut Endpoint, from: NodeId, frame: Frame| {
        endpoint.read_frame(from, Ok(Some(frame.encode_into(Vec::new()))), NOW)
    };
    let target = ActorId::new();
    assert!(matches!(
        read(&mut endpoint, peer, message(target)),
        Ok(Delivery::Message { target: delivered, .. }) if delivered == target
    ));

    let nonce = endpoint
        .begin_lookup(WireKey::new("pool", "u64"), peer.addr(), "lookup")
        .expect("the peer is Up");
    let reply = || Frame::LookupReply {
        nonce,
        result: LookupResult::NotFound,
    };
    assert!(matches!(
        read(&mut endpoint, stranger, reply()),
        Ok(Delivery::Nothing)
    ));
    assert!(matches!(
        read(&mut endpoint, peer, reply()),
        Ok(Delivery::Lookup {
            sink: "lookup",
            result: LookupResult::NotFound
        })
    ));

    let id = ActorId::new();
    endpoint.registry_mut().register(WireKey::new("pool", "u64"), id);
    let asked = Frame::Lookup {
        nonce: Nonce(7),
        key: WireKey::new("pool", "u64"),
    };
    assert!(matches!(
        read(&mut endpoint, peer, asked),
        Ok(Delivery::Nothing)
    ));
    assert!(queued_to(&endpoint, peer.addr()).contains(&Frame::LookupReply {
        nonce: Nonce(7),
        result: LookupResult::Found { id }
    }));

    assert!(matches!(
        endpoint.read_frame(peer, Ok(None), NOW),
        Err(ReadEnd::Closed)
    ));
    assert!(matches!(
        endpoint.read_frame(peer, Ok(Some(vec![99])), NOW),
        Err(ReadEnd::Poisoned)
    ));

    endpoint.node_death(peer, NOW);
    assert!(!matches!(
        read(&mut endpoint, peer, message(target)),
        Ok(Delivery::Message { .. })
    ));
}

#[test]
fn an_acceptor_answers_members_and_joiners() {
    let own = node(1);
    let mut endpoint = endpoint(1);
    assert_eq!(own.addr(), endpoint.node().addr());
    let joiner = node(2);
    let join = || Ok(Some(send_handshake(joiner, HandshakeIntent::Join)));
    let Accepted::Refuse(bytes) = endpoint.accept(join(), &None, NOW) else {
        panic!("an unformed endpoint admits nobody");
    };
    assert!(matches!(
        recv_handshake(Ok(Some(bytes))),
        Err(ConnectError::Refused(RefusalReason::NoCluster))
    ));

    endpoint.form_cluster().expect("an unformed endpoint forms");
    let stranger = Ok(Some(send_handshake(node(3), HandshakeIntent::Member)));
    let Accepted::Refuse(bytes) = endpoint.accept(stranger, &None, NOW) else {
        panic!("a stranger is no member");
    };
    assert!(matches!(
        recv_handshake(Ok(Some(bytes))),
        Err(ConnectError::Refused(RefusalReason::UnknownMember))
    ));

    let Accepted::Admit { peer, frames } = endpoint.accept(join(), &None, NOW) else {
        panic!("a joiner is admitted");
    };
    assert_eq!(peer, joiner);
    assert!(matches!(
        Frame::from_bytes(&frames[0]),
        Ok(Frame::Handshake(_))
    ));
    assert!(endpoint.membership().is_up(joiner));

    endpoint.node_death(joiner, NOW);
    let Accepted::Refuse(bytes) = endpoint.accept(join(), &None, NOW) else {
        panic!("a dead incarnation is not admitted");
    };
    assert!(matches!(
        recv_handshake(Ok(Some(bytes))),
        Err(ConnectError::Refused(RefusalReason::Down))
    ));
    assert!(matches!(
        endpoint.accept(Ok(None), &None, NOW),
        Accepted::Close(Some(ConnectError::Closed))
    ));
}

#[test]
fn a_round_suspects_the_silent_and_downs_by_verdict() {
    let (silent, third) = (node(2), node(3));
    let mut endpoint = member_endpoint(1, &[silent, third]);
    endpoint.track_liveness(silent, NOW);
    endpoint.track_liveness(third, NOW);
    let late = NOW + 6 * SECS;
    endpoint.liveness_mut().record_heartbeat(third, late);

    let round = endpoint.begin_round(late).expect("a member goes round");
    assert_eq!(round.members.len(), 3);
    assert!(round.disconnected.is_empty(), "reached through the third");

    assert!(endpoint.end_round(
        Downing::Members(vec![Member::new(silent, MemberState::Up)]),
        late
    ));
    assert!(endpoint.membership().is_down(silent));
    assert!(!endpoint.end_round(Downing::SelfDown, late));
    assert!(endpoint.downed());
    assert!(endpoint.begin_round(late).is_none());
}

#[test]
fn a_refresh_reasserts_every_watch() {
    let peer = node(2);
    let mut endpoint = member_endpoint(1, &[peer]);
    let (target, watcher) = (ActorId::new(), ActorId::new());
    endpoint.watch_remote(peer, target, Watcher::new(watcher, "handler"));
    endpoint.bind_lane(peer.addr(), Generation(0), peer);
    let before = queued_to(&endpoint, peer.addr()).len();

    assert!(endpoint.refresh_watches());

    let watch = Frame::Watch { target, watcher };
    assert_eq!(
        queued_to(&endpoint, peer.addr())[before..],
        [watch]
    );
}

#[test]
fn a_failed_send_awaits_nothing() {
    let (dead, peer) = (node(2), node(3));
    let mut endpoint = member_endpoint(1, &[dead, peer]);
    endpoint.node_death(dead, NOW);
    let nonce = endpoint.pending_replies_mut().add("reply", None, false);
    let tag = ReplyTag {
        nonce,
        recipient: None,
    };
    let target = ActorId::new();
    assert!(matches!(
        endpoint.encode_and_send(
            dead,
            Envelope::Message { target },
            Err(CodecError::encoding("unsupported")),
            vec![tag]
        ),
        Err(RemoteSendError::Codec(_))
    ));
    assert!(endpoint.pending_replies_mut().take(nonce).is_none());

    let nonce = endpoint.pending_replies_mut().add("reply", None, false);
    let tag = ReplyTag {
        nonce,
        recipient: None,
    };
    assert!(matches!(
        endpoint.encode_and_send(dead, Envelope::Message { target }, Ok(vec![1]), vec![tag]),
        Err(RemoteSendError::Lane(LaneError::NodeUnreachable(_)))
    ));
    assert!(endpoint.pending_replies_mut().take(nonce).is_none());

    let nonce = endpoint.pending_replies_mut().add("reply", None, false);
    let tag = ReplyTag {
        nonce,
        recipient: None,
    };
    assert!(endpoint
        .encode_and_send(peer, Envelope::Message { target }, Ok(vec![1]), vec![tag])
        .is_ok());
    assert!(endpoint.pending_replies_mut().take_from(nonce, peer).is_some());
}

#[test]
fn leaving_drains_and_is_final() {
    let peer = node(2);
    let mut endpoint = member_endpoint(1, &[peer]);
    endpoint.send(peer, gossip()).expect("the lane is opened");

    assert!(endpoint.begin_leave(NOW));
    let own = endpoint.node();
    let told = queued_to(&endpoint, peer.addr());
    assert!(matches!(
        told.last(),
        Some(Frame::Gossip { members, .. })
            if members.contains(&WireMember { node: own, state: MemberState::Down })
    ));
    assert!(!endpoint.outbound_drained());

    let mut drain = Drain::new();
    assert!(!drain.observe(false));
    assert!(!drain.observe(true));
    assert!(drain.observe(true));

    assert!(endpoint.leave_down(NOW));
    assert!(endpoint.downed());
    assert!(!endpoint.leave_down(NOW));
    assert!(!endpoint.begin_leave(NOW));

    assert_eq!(leave_outcome::<u8>(Ok(()), Ok(())), Ok(()));
    assert_eq!(
        leave_outcome(Ok(()), Err(7)),
        Err(LeaveError::Terminated(7))
    );
}

#[test]
fn the_api_needs_a_started_endpoint() {
    let mut slot: Option<Endpoint> = None;
    assert_eq!(api::form(slot.as_mut()), Err(FormError::EndpointNotStarted));
    assert_eq!(
        api::lifecycle(slot.as_ref()),
        Err(ClusterStateError::EndpointNotStarted)
    );
    assert_eq!(
        api::members(slot.as_ref()),
        Err(MembersError::EndpointNotStarted)
    );
    assert_eq!(
        api::down(slot.as_mut(), addr(2), NOW),
        Err(DownError::EndpointNotStarted)
    );
    assert!(!api::sever_connections(slot.as_mut()));
    assert!(!api::drop_terminated_frames(slot.as_mut(), 1));

    let deadline = Deadline::new(SECS).expect("1s is not zero");
    let mut invalid = EndpointConfig::new(addr(1));
    invalid.heartbeat_interval = 0;
    assert_eq!(
        api::start_endpoint(&mut slot, invalid, None, deadline, NOW),
        Err(StartError::Config(
            InvalidEndpointConfig::ZeroHeartbeatInterval
        ))
    );
    assert!(api::start_endpoint(
        &mut slot,
        EndpointConfig::new(addr(1)),
        Some(4),
        deadline,
        NOW
    )
    .is_ok());
    assert_eq!(
        api::start_endpoint(
            &mut slot,
            EndpointConfig::new(addr(1)),
            None,
            deadline,
            NOW
        ),
        Err(StartError::AlreadyStarted)
    );

    assert_eq!(api::lifecycle(slot.as_ref()), Ok(Lifecycle::Unformed));
    assert_eq!(api::form(slot.as_mut()), Ok(()));
    assert_eq!(
        api::down(slot.as_mut(), addr(1), NOW),
        Err(DownError::ThisNode)
    );
    assert_eq!(
        api::down(slot.as_mut(), addr(2), NOW),
        Err(DownError::NotAMember(addr(2)))
    );
    let peer = node(2);
    if let Some(endpoint) = slot.as_mut() {
        endpoint.membership_mut().add_up(peer, NOW);
    }
    assert_eq!(api::down(slot.as_mut(), addr(2), NOW), Ok(()));
    let members = api::members(slot.as_ref()).expect("started");
    assert!(members.contains(&Member::new(peer, MemberState::Down)));
    assert!(api::sever_connections(slot.as_mut()));
    assert!(api::drop_terminated_frames(slot.as_mut(), 1));
}

#[test]
fn an_armed_drop_loses_terminated_frames_only() {
    let peer = node(2);
    let mut endpoint = member_endpoint(1, &[peer]);
    endpoint.arm_terminated_drop(1);
    let (target, watcher) = (ActorId::new(), ActorId::new());
    for _ in 0..2 {
        endpoint
            .send(peer, Frame::Terminated { target, watcher })
            .expect("the lane is opened");
    }
    endpoint.send(peer, gossip()).expect("the lane is open");
    assert_eq!(queued_to(&endpoint, peer.addr()).len(), 2);
}

#[test]
fn a_lifecycle_survives_its_code() {
    for lifecycle in [Lifecycle::Unformed, Lifecycle::Formed, Lifecycle::Downed] {
        assert_eq!(Lifecycle::from_code(lifecycle.code()), lifecycle);
    }
    assert_eq!(Lifecycle::default(), Lifecycle::Unformed);
}

#[test]
fn a_published_state_lists_who_is_out_of_reach() {
    let (reached, silent) = (node(2), node(3));
    let mut endpoint = member_endpoint(1, &[reached, silent]);
    let own = endpoint.node();
    endpoint.track_liveness(reached, NOW);
    endpoint.track_liveness(silent, NOW);
    let late = NOW + 6 * SECS;
    endpoint.liveness_mut().record_heartbeat(reached, late);
    let up = [own, reached, silent];
    let cut = WireReachability {
        observer: reached,
        subject: silent,
        version: 1,
        reachable: false,
    };
    endpoint.reachability_mut().merge(&[cut], &up);
    let state = ClusterState::new(own, 0, endpoint.membership().members(), Vec::new());
    let mut receptionist = Receptionist::new(own, state);

    let round = endpoint.begin_round(late).expect("a member goes round");
    observe_round(&mut receptionist, &round);

    let state = receptionist.state();
    assert_eq!(state.version(), 1);
    assert_eq!(state.members(), &round.members[..]);
    assert_eq!(
        state.unreachable(),
        &[Member::new(silent, MemberState::Up)][..]
    );
    assert!(state.unreachable().iter().all(|member| member.node() != own));
}

#[test]
fn an_evicted_actor_leaves_nothing_behind() {
    let mut endpoint = member_endpoint(1, &[]);
    let (gone, other) = (ActorId::new(), ActorId::new());
    endpoint.registry_mut().register(WireKey::new("pool", "u64"), gone);
    endpoint.registry_mut().register(WireKey::new("pool", "u64"), other);
    let awaited = endpoint.pending_replies_mut().add("gone", Some(gone), false);
    let kept = endpoint.pending_replies_mut().add("kept", Some(other), false);

    endpoint.evict(gone);

    assert_eq!(endpoint.registry().version, 3);
    assert_eq!(endpoint.registry().entries.len(), 1);
    assert_eq!(endpoint.registry().entries[0].id, other);
    assert!(endpoint.pending_replies_mut().take(awaited).is_none());
    assert!(endpoint.pending_replies_mut().take(kept).is_some());
}

/// Forms once it has been asked often enough.
struct Patient {
    asked: u32,
}

impl FormationProvider for Patient {
    fn form(&mut self, _: &Formation) -> bool {
        self.asked += 1;
        self.asked > 1
    }
}

#[test]
fn a_bootstrap_ends_well_only_for_a_member() {
    let mut endpoint = endpoint(1);
    let bootstrap = Bootstrap::begin(BootstrapConfig::new(), true).expect("the defaults are valid");
    let mut universe = AddrSet::new();
    universe.insert(addr(1));
    universe.insert(addr(2));
    let formation = Formation {
        universe,
        self_addr: addr(1),
        outcomes: vec![(addr(2), JoinOutcome::NoCluster)],
    };

    assert!(matches!(
        bootstrap.decide(&mut endpoint, &mut Explicit, &formation),
        BootstrapStep::Wait
    ));
    assert!(!endpoint.formed());
    let mut patient = Patient { asked: 0 };
    assert!(matches!(
        bootstrap.decide(&mut endpoint, &mut patient, &formation),
        BootstrapStep::Wait
    ));
    assert!(!endpoint.formed());

    endpoint.pin_cluster(addr(2));
    assert!(matches!(
        bootstrap.decide(&mut endpoint, &mut patient, &formation),
        BootstrapStep::Wait
    ));
    assert!(!endpoint.formed());
    assert_eq!(
        endpoint.finish_join(addr(2), Ok(()), NOW),
        Ok(()),
        "the pinned cluster admits this node"
    );
    assert!(endpoint.formed());
    assert!(matches!(
        bootstrap.decide(&mut endpoint, &mut patient, &formation),
        BootstrapStep::Done(Ok(()))
    ));

    endpoint.self_down(NOW);
    assert!(matches!(
        bootstrap.decide(&mut endpoint, &mut patient, &formation),
        BootstrapStep::Done(Err(BootstrapError::Downed))
    ));
}
