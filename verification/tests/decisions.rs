use tellus::addr::SocketAddr;
use tellus::backoff::Backoff;
use tellus::cluster::accrual::{
    HeartbeatWindow, InvalidPhiAccrual, PhiAccrual, Silence, UncheckedPhiAccrual,
};
use tellus::cluster::addrs::AddrSet;
use tellus::cluster::bootstrap::{
    seeds, universe, validate, Bootstrap, BootstrapConfig, BootstrapError, BootstrapStep,
    FixedSeeds, InvalidBootstrapConfig, Settle, UncheckedBootstrapConfig,
};
use tellus::cluster::config::{EndpointConfig, InvalidEndpointConfig, UncheckedEndpointConfig};
use tellus::cluster::downing::{
    Disconnected, DownAfterDeadline, Downing, DowningProvider, DowningProviderConfig, KeepMajority,
};
use tellus::cluster::failure::{
    Deadline, DeadlineFailureDetector, FailureDetector, FailureDetectorFactory, InvalidDeadline,
    Liveness,
};
use tellus::cluster::formation::{
    Explicit, Formation, FormationProvider, FormationProviderConfig, JoinOutcome, Majority, Unanimous,
};
use tellus::cluster::membership::{Member, MemberState};
use tellus::ids::NodeId;

const MILLIS: u128 = 1_000_000;
const SECS: u128 = 1_000_000_000;

const DEADLINE: u128 = 5 * SECS;
const TICK: u128 = MILLIS;
const AFTER: u128 = 10 * SECS;

const NOW: u128 = 1_000 * SECS;

fn deadline() -> Deadline {
    Deadline::new(DEADLINE).expect("5s is not zero")
}

fn node() -> NodeId {
    NodeId::new(SocketAddr::v4(127, 0, 0, 1, 1234))
}

#[test]
fn a_node_without_heartbeats_is_available() {
    let detector = DeadlineFailureDetector::new(deadline());

    assert!(detector.is_available(NOW + DEADLINE * 2));
}

#[test]
fn the_deadline_is_inclusive() {
    let mut detector = DeadlineFailureDetector::new(deadline());
    detector.record_heartbeat(NOW);

    assert!(detector.is_available(NOW));
    assert!(detector.is_available(NOW + DEADLINE));
    assert!(!detector.is_available(NOW + DEADLINE + TICK));
}

#[test]
fn a_heartbeat_restarts_the_deadline() {
    let mut detector = DeadlineFailureDetector::new(deadline());
    detector.record_heartbeat(NOW);
    assert!(!detector.is_available(NOW + DEADLINE + TICK));

    detector.record_heartbeat(NOW + DEADLINE);

    assert!(detector.is_available(NOW + DEADLINE + TICK));
    assert!(!detector.is_available(NOW + DEADLINE * 2 + TICK));
}

#[test]
fn retention_keeps_held_gates_and_the_keep_set() {
    let mut liveness = Liveness::new();
    let node = node();
    let late = NOW + DEADLINE + TICK;

    liveness.track(node, deadline().make(), NOW);
    assert!(liveness.hold(node, true));

    liveness.retain_with(&[]);
    assert!(
        !liveness.is_available(node, late),
        "a held gate must survive retention"
    );

    assert!(liveness.hold(node, false));
    liveness.retain_with(&[node]);
    assert!(
        !liveness.is_available(node, late),
        "a kept node must survive retention"
    );

    liveness.retain_with(&[]);
    assert!(
        liveness.is_available(node, late),
        "an unheld, unkept node must be dropped"
    );
    assert!(!liveness.hold(node, true));
}

#[test]
fn a_zero_deadline_is_refused() {
    assert!(matches!(Deadline::new(0), Err(InvalidDeadline::Zero)));
    assert_eq!(deadline().duration(), DEADLINE);
}

#[test]
fn a_fence_quiesces_and_untracks_every_covered_incarnation() {
    let mut liveness = Liveness::new();
    let older = node();
    let fence = node();
    let newer = node();
    for peer in [older, fence, newer] {
        liveness.track(peer, deadline().make(), NOW);
    }
    let late = NOW + DEADLINE + TICK;
    assert!(!liveness.is_available(older, late));

    assert!(liveness.is_quiesced(fence));
    liveness.untrack_fenced(fence);

    assert!(
        liveness.is_available(older, late),
        "a covered gate must be gone"
    );
    assert!(
        liveness.is_available(fence, late),
        "the fence's gate must be gone"
    );
    assert!(liveness.is_available(newer, NOW));
    assert!(!liveness.is_available(newer, late));
}

#[test]
fn quiesce_waits_out_deliveries() {
    let mut liveness = Liveness::new();
    let node = node();
    liveness.track(node, deadline().make(), NOW);

    assert!(liveness.deliver(node, true));
    assert!(
        !liveness.is_quiesced(node),
        "quiesced while a delivery was under way"
    );

    assert!(liveness.deliver(node, false));
    assert!(
        liveness.is_quiesced(node),
        "not quiesced after the delivery"
    );
    assert!(!liveness.deliver(node, false));
}

#[test]
fn warmup_falls_back_to_the_deadline() {
    let warmup = 5 * SECS;
    let mut window = HeartbeatWindow::new(PhiAccrual::default());
    assert_eq!(window.silence(NOW + warmup * 10), Silence::Decided(true));

    window.record_heartbeat(NOW);
    assert_eq!(window.silence(NOW + warmup), Silence::Decided(true));
    assert_eq!(window.silence(NOW + warmup + TICK), Silence::Decided(false));

    window.record_heartbeat(NOW + SECS);
    assert_eq!(
        window.silence(NOW + SECS + warmup + TICK),
        Silence::Decided(false)
    );
}

#[test]
fn an_invalid_tuning_is_refused() {
    assert!(matches!(
        PhiAccrual::default().with_max_sample_size(1),
        Err(InvalidPhiAccrual::MaxSampleSize(1))
    ));
    assert!(matches!(
        PhiAccrual::default().with_max_sample_size(0),
        Err(InvalidPhiAccrual::MaxSampleSize(0))
    ));
    assert!(PhiAccrual::default().with_max_sample_size(2).is_ok());

    assert!(matches!(
        PhiAccrual::default().with_threshold(f64::NAN.to_bits()),
        Err(InvalidPhiAccrual::Threshold(_))
    ));
    assert!(matches!(
        PhiAccrual::default().with_threshold(f64::INFINITY.to_bits()),
        Err(InvalidPhiAccrual::Threshold(_))
    ));
    assert!(matches!(
        PhiAccrual::default().with_threshold(0.0_f64.to_bits()),
        Err(InvalidPhiAccrual::Threshold(_))
    ));
    assert!(PhiAccrual::default().with_threshold(8.0_f64.to_bits()).is_ok());

    assert!(matches!(
        PhiAccrual::default().with_min_std_deviation(0),
        Err(InvalidPhiAccrual::MinStdDeviation)
    ));
}

#[test]
fn the_threshold_is_finite_and_positive() {
    for refused in [-0.0, -8.0, f64::NEG_INFINITY, -f64::NAN] {
        assert_eq!(
            PhiAccrual::default().with_threshold(f64::to_bits(refused)),
            Err(InvalidPhiAccrual::Threshold(f64::to_bits(refused)))
        );
    }
    for accepted in [f64::MIN_POSITIVE / 2.0, f64::MIN_POSITIVE, 0.5, f64::MAX] {
        let config = PhiAccrual::default()
            .with_threshold(f64::to_bits(accepted))
            .expect("finite and positive");
        assert_eq!(f64::from_bits(config.threshold()), accepted);
    }
    assert_eq!(f64::from_bits(PhiAccrual::DEFAULT_THRESHOLD), 8.0);
    assert_eq!(f64::from_bits(PhiAccrual::INFINITY), f64::INFINITY);
}

#[test]
fn a_tuning_keeps_what_is_not_replaced() {
    let config = PhiAccrual::default()
        .with_threshold(12.0_f64.to_bits())
        .and_then(|config| config.with_max_sample_size(500))
        .and_then(|config| config.with_min_std_deviation(50_000_000))
        .expect("the tuning is valid")
        .with_acceptable_pause(SECS)
        .with_warmup_deadline(10 * SECS);
    assert_eq!(f64::from_bits(config.threshold()), 12.0);
    assert_eq!(config.max_sample_size(), 500);
    assert_eq!(config.min_std_deviation(), 50_000_000);
    assert_eq!(config.acceptable_pause(), SECS);
    assert_eq!(config.warmup_deadline(), 10 * SECS);

    let config = PhiAccrual::default();
    assert_eq!(config.max_sample_size(), 200);
    assert_eq!(config.min_std_deviation(), 100_000_000);
    assert_eq!(config.acceptable_pause(), 3 * SECS);
    assert_eq!(config.warmup_deadline(), 5 * SECS);
}

#[test]
fn a_heartbeat_window_slides() {
    let config = PhiAccrual::default()
        .with_max_sample_size(2)
        .expect("2 is a valid sample size");
    let mut window = HeartbeatWindow::new(config);
    assert_eq!(window.record_heartbeat(NOW), None);
    assert_eq!(window.record_heartbeat(NOW + 100 * SECS), None);
    assert_eq!(window.record_heartbeat(NOW + 101 * SECS), None);
    assert_eq!(
        window.silence(NOW + 104 * SECS),
        Silence::Weigh { elapsed: 3 * SECS }
    );
    assert_eq!(
        window.record_heartbeat(NOW + 102 * SECS),
        Some(100 * SECS),
        "an outlier ages out with the intervals after it"
    );
    assert_eq!(window.intervals, vec![SECS, SECS]);
}

fn member(port: u16, state: MemberState) -> Member {
    Member::new(NodeId::new(SocketAddr::v4(127, 0, 0, 1, port)), state)
}

#[test]
fn keep_majority_ignores_members_which_are_already_down() {
    let mut provider = KeepMajority::new(AFTER);
    let members = [
        member(1, MemberState::Up),
        member(2, MemberState::Up),
        member(3, MemberState::Down),
    ];

    assert_eq!(
        provider.down(&members, Disconnected::new(&[(members[2], NOW)]), NOW + AFTER),
        Downing::Members(vec![])
    );
}

#[test]
fn keep_majority_decides_once_every_member_reaches_the_deadline() {
    let mut provider = KeepMajority::new(AFTER);
    let members = [
        member(1, MemberState::Up),
        member(2, MemberState::Up),
        member(3, MemberState::Up),
    ];

    assert_eq!(
        provider.down(
            &members,
            Disconnected::new(&[(members[2], NOW)]),
            NOW + AFTER - SECS
        ),
        Downing::Members(vec![])
    );
    assert_eq!(
        provider.down(
            &members,
            Disconnected::new(&[(members[2], NOW), (members[1], NOW + AFTER)]),
            NOW + AFTER
        ),
        Downing::Members(vec![])
    );
    assert_eq!(
        provider.down(&members, Disconnected::new(&[(members[2], NOW)]), NOW + AFTER),
        Downing::Members(vec![members[2]])
    );
}

#[test]
fn keep_majority_downs_the_minority_and_self_downs_in_it() {
    let mut provider = KeepMajority::new(AFTER);
    let members = [
        member(1, MemberState::Up),
        member(2, MemberState::Up),
        member(3, MemberState::Up),
    ];
    let at = NOW + AFTER;

    assert_eq!(
        provider.down(&members, Disconnected::new(&[(members[2], NOW)]), at),
        Downing::Members(vec![members[2]])
    );
    assert_eq!(
        provider.down(
            &members,
            Disconnected::new(&[(members[1], NOW), (members[2], NOW)]),
            at
        ),
        Downing::SelfDown
    );
}

#[test]
fn keep_majority_resolves_an_even_split_by_the_lowest_address() {
    let mut provider = KeepMajority::new(AFTER);
    let members = [
        member(1, MemberState::Up),
        member(2, MemberState::Up),
        member(3, MemberState::Up),
        member(4, MemberState::Up),
    ];
    let at = NOW + AFTER;

    assert_eq!(
        provider.down(
            &members,
            Disconnected::new(&[(members[2], NOW), (members[3], NOW)]),
            at
        ),
        Downing::Members(vec![members[2], members[3]])
    );
    assert_eq!(
        provider.down(
            &members,
            Disconnected::new(&[(members[0], NOW), (members[1], NOW)]),
            at
        ),
        Downing::SelfDown
    );
}

#[test]
fn keep_majority_counts_up_members_only() {
    let mut provider = KeepMajority::new(AFTER);
    let members = [
        member(1, MemberState::Down),
        member(2, MemberState::Up),
        member(3, MemberState::Up),
        member(4, MemberState::Up),
    ];

    assert_eq!(
        provider.down(
            &members,
            Disconnected::new(&[(members[2], NOW), (members[3], NOW)]),
            NOW + AFTER
        ),
        Downing::SelfDown
    );
}

#[test]
fn down_after_deadline_downs_at_the_deadline() {
    let mut provider = DownAfterDeadline::new(AFTER);
    let member = member(2, MemberState::Up);

    assert_eq!(
        provider.down(
            &[member],
            Disconnected::new(&[(member, NOW)]),
            NOW + AFTER - SECS
        ),
        Downing::Members(vec![])
    );
    assert_eq!(
        provider.down(&[member], Disconnected::new(&[(member, NOW)]), NOW + AFTER),
        Downing::Members(vec![member])
    );
}

#[test]
fn keep_majority_defaults_to_the_documented_deadline() {
    assert_eq!(KeepMajority::default().after, KeepMajority::DEFAULT_AFTER);
}

fn addr(port: u16) -> SocketAddr {
    SocketAddr::v4(127, 0, 0, 1, port)
}

fn set(addrs: &[SocketAddr]) -> AddrSet {
    let mut set = AddrSet::new();
    for addr in addrs {
        set.insert(*addr);
    }
    set
}

fn formation(self_port: u16, ports: &[u16], outcomes: &[(u16, JoinOutcome)]) -> Formation {
    let mut universe = AddrSet::new();
    for port in ports {
        universe.insert(addr(*port));
    }
    universe.insert(addr(self_port));

    Formation {
        universe,
        self_addr: addr(self_port),
        outcomes: outcomes
            .iter()
            .map(|(port, outcome)| (addr(*port), *outcome))
            .collect(),
    }
}

#[test]
fn majority_forms_at_the_lowest_address_of_a_settled_universe() {
    let formation = formation(
        1,
        &[1, 2, 3, 4, 5],
        &[
            (2, JoinOutcome::NoCluster),
            (3, JoinOutcome::NoCluster),
            (4, JoinOutcome::NoCluster),
            (5, JoinOutcome::NoCluster),
        ],
    );

    assert!(Majority.form(&formation));
}

#[test]
fn majority_refuses_a_partitioned_minority() {
    let formation = formation(
        1,
        &[1, 2, 3, 4, 5],
        &[
            (2, JoinOutcome::NoCluster),
            (3, JoinOutcome::Unavailable),
            (4, JoinOutcome::Unavailable),
            (5, JoinOutcome::Unavailable),
        ],
    );

    assert!(!Majority.form(&formation));
}

#[test]
fn majority_refuses_every_address_but_the_lowest() {
    let formation = formation(
        2,
        &[1, 2, 3, 4, 5],
        &[
            (1, JoinOutcome::NoCluster),
            (3, JoinOutcome::NoCluster),
            (4, JoinOutcome::NoCluster),
            (5, JoinOutcome::NoCluster),
        ],
    );

    assert!(!Majority.form(&formation));
}

#[test]
fn majority_refuses_while_the_lowest_address_is_unavailable() {
    let formation = formation(
        2,
        &[1, 2, 3, 4, 5],
        &[
            (1, JoinOutcome::Unavailable),
            (3, JoinOutcome::NoCluster),
            (4, JoinOutcome::NoCluster),
            (5, JoinOutcome::NoCluster),
        ],
    );

    assert!(!Majority.form(&formation));
}

#[test]
fn majority_refuses_a_round_which_asked_one_address() {
    let formation = formation(1, &[1, 2, 3, 4, 5], &[(2, JoinOutcome::NoCluster)]);

    assert!(!Majority.form(&formation));
}

#[test]
fn majority_forms_a_single_node_cluster() {
    let formation = formation(1, &[], &[]);

    assert!(Majority.form(&formation));
}

#[test]
fn majority_counts_a_universe_the_local_address_is_missing_from() {
    let formation = formation(1, &[2, 3], &[(2, JoinOutcome::NoCluster)]);

    assert!(Majority.form(&formation));
}

#[test]
fn unanimous_forms_only_once_every_address_answered() {
    let all = formation(
        1,
        &[1, 2, 3],
        &[(2, JoinOutcome::NoCluster), (3, JoinOutcome::NoCluster)],
    );
    let one_missing = formation(
        1,
        &[1, 2, 3],
        &[(2, JoinOutcome::NoCluster), (3, JoinOutcome::Unavailable)],
    );

    assert!(Unanimous.form(&all));
    assert!(!Unanimous.form(&one_missing));
}

#[test]
fn explicit_never_forms() {
    let formation = formation(1, &[], &[]);

    assert!(!Explicit.form(&formation));
}

fn host(n: u8) -> SocketAddr {
    SocketAddr::v4(127, 0, 0, n, 4242)
}

#[test]
fn test_seeds() {
    let one = host(1);
    let two = host(2);
    let three = host(3);
    let resolved = set(&[three, one, two]);

    assert_eq!(seeds(&resolved, two), vec![one, three]);
    assert_eq!(seeds(&resolved, host(9)), vec![one, two, three]);
    assert_eq!(seeds(&set(&[one]), one), vec![]);
}

#[test]
fn the_universe_adds_this_node_whether_or_not_discovery_resolved_it() {
    let one = host(1);
    let two = host(2);
    let three = host(3);

    assert_eq!(
        universe(&vec![two, three], one).as_slice(),
        vec![one, two, three]
    );
    assert_eq!(
        universe(&vec![one, two, three], one).as_slice(),
        vec![one, two, three]
    );
    assert_eq!(universe(&vec![], one).as_slice(), vec![one]);
}

#[test]
fn test_settle() {
    let settle_duration = 3 * SECS;
    let mut settle = Settle::new(settle_duration);
    let one = set(&[host(1)]);
    let one_two = set(&[host(1), host(2)]);

    assert!(!settle.settled(&one, NOW));
    assert!(!settle.settled(&one, NOW + SECS));
    assert!(settle.settled(&one, NOW + settle_duration));

    assert!(!settle.settled(&one_two, NOW + settle_duration));
    assert!(!settle.settled(&one_two, NOW + 5 * SECS));
    assert!(settle.settled(&one_two, NOW + settle_duration + settle_duration));

    settle.reset();
    let observed = NOW + settle_duration + settle_duration + SECS;
    assert!(!settle.settled(&one_two, observed));
    assert!(!settle.settled(&one_two, NOW + settle_duration * 3));
    assert!(settle.settled(&one_two, observed + settle_duration));
}

#[test]
fn test_fixed_seeds() {
    let fixed = FixedSeeds::new(vec![host(1), host(2)]);

    assert_eq!(fixed.resolve(), vec![host(1), host(2)]);
    assert_eq!(fixed.resolve(), vec![host(1), host(2)]);
}

#[test]
fn a_new_config_carries_the_documented_defaults() {
    let config = BootstrapConfig::new();

    assert_eq!(config.min_peers, BootstrapConfig::DEFAULT_MIN_PEERS);
    assert_eq!(config.settle, BootstrapConfig::DEFAULT_SETTLE);
    assert_eq!(
        config.resolve_interval,
        BootstrapConfig::DEFAULT_RESOLVE_INTERVAL
    );
    assert_eq!(config.min_peers, 2);
    assert_eq!(config.settle, 3 * SECS);
    assert_eq!(config.resolve_interval, SECS);
}

#[test]
fn a_zero_resolve_interval_is_refused() {
    let mut config = BootstrapConfig::new();
    config.resolve_interval = 0;

    assert!(matches!(
        validate(&config),
        Err(InvalidBootstrapConfig::ZeroResolveInterval)
    ));

    assert!(
        matches!(
            Bootstrap::begin(config, true),
            Err(BootstrapError::Config(
                InvalidBootstrapConfig::ZeroResolveInterval
            ))
        ),
        "bootstrap must refuse the config before it resolves anything"
    );
    assert!(matches!(
        Bootstrap::begin(BootstrapConfig::new(), false),
        Err(BootstrapError::EndpointNotStarted)
    ));
    let mut bootstrap = Bootstrap::begin(BootstrapConfig::new(), true).expect("valid");
    assert!(matches!(
        bootstrap.on_resolve_failed(),
        BootstrapStep::Wait
    ));
}

#[test]
fn a_selected_formation_provider_decides() {
    let majority = formation(
        1,
        &[1, 2, 3],
        &[(2, JoinOutcome::NoCluster), (3, JoinOutcome::Unavailable)],
    );

    assert!(FormationProviderConfig::Majority.form(&majority));
    assert!(!FormationProviderConfig::Unanimous.form(&majority));
    assert!(!FormationProviderConfig::Explicit.form(&majority));
}

#[test]
fn a_selected_downing_provider_decides() {
    let members = [
        member(1, MemberState::Up),
        member(2, MemberState::Up),
        member(3, MemberState::Up),
    ];
    let disconnected = [(members[0], NOW), (members[1], NOW)];
    let at = NOW + AFTER;

    let mut provider = DowningProviderConfig::KeepMajority(KeepMajority::new(AFTER));
    assert_eq!(
        provider.down(&members, Disconnected::new(&disconnected), at),
        Downing::SelfDown
    );
    let mut provider = DowningProviderConfig::DownAfterDeadline(DownAfterDeadline::new(AFTER));
    assert_eq!(
        provider.down(&members, Disconnected::new(&disconnected), at),
        Downing::Members(vec![members[0], members[1]])
    );
}

#[test]
fn omitted_endpoint_settings_fall_back_to_their_defaults() {
    let given = UncheckedEndpointConfig {
        advertised_addr: addr(1),
        outbound_capacity: None,
        max_streams_per_peer: Some(4),
        max_frame_size: None,
        heartbeat_interval: Some(2 * SECS),
        watch_refresh_interval: None,
        down_retention: None,
        down_watermarks: None,
        leave_timeout: None,
        reconnect_backoff: Some(Backoff::new(SECS, 2 * SECS).expect("the bounds are valid")),
        max_connect_attempts: None,
    };
    let config = given.check().expect("the settings are valid");
    assert_eq!(
        config,
        EndpointConfig {
            max_streams_per_peer: 4,
            heartbeat_interval: 2 * SECS,
            reconnect_backoff: Backoff::new(SECS, 2 * SECS).expect("the bounds are valid"),
            ..EndpointConfig::new(addr(1))
        }
    );

    let too_small = UncheckedEndpointConfig {
        max_frame_size: Some(16),
        ..given
    };
    assert!(matches!(
        too_small.check(),
        Err(InvalidEndpointConfig::MaxFrameSizeTooSmall { max_frame_size: 16, .. })
    ));
    let zero = UncheckedEndpointConfig {
        heartbeat_interval: Some(0),
        ..given
    };
    assert_eq!(zero.check(), Err(InvalidEndpointConfig::ZeroHeartbeatInterval));
    let zero = UncheckedEndpointConfig {
        watch_refresh_interval: Some(0),
        ..given
    };
    assert_eq!(zero.check(), Err(InvalidEndpointConfig::ZeroWatchRefreshInterval));
}

#[test]
fn omitted_bootstrap_settings_fall_back_to_their_defaults() {
    let given = UncheckedBootstrapConfig {
        min_peers: Some(3),
        settle: None,
        resolve_interval: None,
    };
    assert_eq!(
        given.check(),
        Ok(BootstrapConfig {
            min_peers: 3,
            ..BootstrapConfig::new()
        })
    );
    let zero = UncheckedBootstrapConfig {
        resolve_interval: Some(0),
        ..given
    };
    assert_eq!(zero.check(), Err(InvalidBootstrapConfig::ZeroResolveInterval));
}

#[test]
fn omitted_tuning_falls_back_to_its_defaults() {
    let given = UncheckedPhiAccrual {
        threshold: None,
        max_sample_size: None,
        min_std_deviation: None,
        acceptable_pause: Some(0),
        warmup_deadline: None,
    };
    assert_eq!(given.check(), Ok(PhiAccrual::default().with_acceptable_pause(0)));
    let wrong = UncheckedPhiAccrual {
        threshold: Some(0),
        max_sample_size: Some(1),
        min_std_deviation: Some(0),
        ..given
    };
    assert_eq!(wrong.check(), Err(InvalidPhiAccrual::Threshold(0)));
    let wrong = UncheckedPhiAccrual {
        threshold: None,
        ..wrong
    };
    assert_eq!(wrong.check(), Err(InvalidPhiAccrual::MaxSampleSize(1)));
    let wrong = UncheckedPhiAccrual {
        max_sample_size: None,
        ..wrong
    };
    assert_eq!(wrong.check(), Err(InvalidPhiAccrual::MinStdDeviation));
}

#[test]
fn only_addresses_of_the_universe_count() {
    let outside = formation(1, &[1], &[(2, JoinOutcome::NoCluster)]);
    assert_eq!(outside.no_cluster_count(), 1);

    let mixed = formation(
        1,
        &[1, 2, 3],
        &[
            (2, JoinOutcome::NoCluster),
            (2, JoinOutcome::NoCluster),
            (1, JoinOutcome::NoCluster),
            (3, JoinOutcome::Unavailable),
            (4, JoinOutcome::NoCluster),
        ],
    );
    assert_eq!(mixed.no_cluster_count(), 2);
    assert!(Majority.form(&mixed));
    assert!(!Unanimous.form(&mixed));

    let strangers = formation(
        1,
        &[1, 2, 3],
        &[(4, JoinOutcome::NoCluster), (5, JoinOutcome::NoCluster)],
    );
    assert!(!Majority.form(&strangers));
    assert!(!Unanimous.form(&strangers));
}
