use tellus::addr::SocketAddr;
use tellus::cluster::downing::{Disconnected, Downing, DowningProvider, KeepMajority};
use tellus::cluster::frame::Frame;
use tellus::cluster::membership::{
    snapshot_frames, Member, MemberState, Membership, WireMember, MAX_ENCODED_LEN, MIN_FRAME_SIZE,
};
use tellus::cluster::reachability;
use tellus::cluster::reachability::{Reachability, WireReachability, MAX_PENDING};
use tellus::ids::NodeId;
use tellus::wire::Wire;

const SECS: u128 = 1_000_000_000;
const NOW: u128 = 1_000 * SECS;

fn addr(port: u16) -> SocketAddr {
    SocketAddr::v4(127, 0, 0, 1, port)
}

fn node(port: u16) -> NodeId {
    NodeId::new(addr(port))
}

fn widest_node() -> NodeId {
    NodeId::new(SocketAddr::v6(u128::MAX, u16::MAX))
}

fn wire(node: NodeId, state: MemberState) -> WireMember {
    WireMember { node, state }
}

fn membership(node: NodeId) -> Membership {
    Membership::new(node, usize::MAX, NOW)
}

fn encoded_len<T: Wire>(value: &T) -> usize {
    let mut bytes = Vec::new();
    value.put(&mut bytes);
    bytes.len()
}

#[test]
fn a_new_membership_lists_this_node_up() {
    let node = node(1);
    let membership = membership(node);

    assert!(membership.is_up(node));
    assert_eq!(membership.members().len(), 1);
    assert!(membership.up_peers().is_empty());
}

#[test]
fn down_is_terminal_and_merge_is_idempotent() {
    let mut membership = membership(node(1));
    let peer = node(2);

    assert!(membership.add_up(peer, NOW));
    assert!(!membership.add_up(peer, NOW));
    assert!(membership.down(peer, NOW).member_changed);
    assert!(!membership.down(peer, NOW).member_changed);
    assert!(!membership.add_up(peer, NOW));
    assert!(membership.is_down(peer));

    let merge = membership.merge(&[wire(peer, MemberState::Up)], NOW);
    assert!(merge.new_up.is_empty());
    assert!(merge.to_down.is_empty());

    let merge = membership.merge(&[wire(peer, MemberState::Down)], NOW);
    assert!(merge.to_down.is_empty());
}

#[test]
fn merge_applies_up_and_folds_downs_into_the_watermark() {
    let own = node(1);
    let mut membership = membership(own);
    let (up, dead) = (node(2), node(3));

    let merge = membership.merge(
        &[
            wire(up, MemberState::Up),
            wire(dead, MemberState::Down),
            wire(own, MemberState::Up),
        ],
        NOW,
    );
    assert_eq!(merge.new_up, vec![up]);
    assert!(merge.to_down.is_empty());
    assert_eq!(merge.to_flush, vec![dead]);
    assert!(!merge.self_down);
    assert!(membership.is_up(up));
    assert!(membership.is_down(dead));
    assert!(!membership
        .members()
        .iter()
        .any(|member| member.node == dead));

    let merge = membership.merge(&[wire(own, MemberState::Down)], NOW);
    assert!(merge.self_down);
}

#[test]
fn a_departure_is_gossiped_down_and_merged_as_a_node_death() {
    let leaver = node(1);
    let mut own = membership(leaver);
    assert!(own.down(leaver, NOW).member_changed);

    let snapshot = own.snapshot();
    assert_eq!(snapshot.len(), 1);
    assert_eq!(snapshot[0].state, MemberState::Down);

    let mut peer = membership(node(2));
    peer.add_up(leaver, NOW);

    let merge = peer.merge(&snapshot, NOW);
    assert_eq!(merge.to_down, vec![leaver]);
    assert!(merge.new_up.is_empty());
    assert!(!merge.self_down);
}

#[test]
fn merge_supersedes_towards_the_younger_incarnation() {
    let shared = addr(2);
    let older = NodeId::new(shared);
    let younger = NodeId::new(shared);
    assert!(older.incarnation().older_than(younger.incarnation()));

    let mut first = membership(node(1));
    assert!(first.add_up(older, NOW));
    let merge = first.merge(&[wire(younger, MemberState::Up)], NOW);
    assert_eq!(merge.to_down, vec![older]);
    assert!(first.is_up(younger));

    let mut second = membership(node(1));
    assert!(second.add_up(younger, NOW));
    let merge = second.merge(&[wire(older, MemberState::Up)], NOW);
    assert_eq!(merge.to_down, vec![older]);
    assert!(second.is_up(younger));
    assert!(!second.is_up(older));
}

#[test]
fn merge_downs_a_predecessor_at_this_nodes_address() {
    let shared = addr(1);
    let predecessor = NodeId::new(shared);
    let own = NodeId::new(shared);
    assert!(predecessor.incarnation().older_than(own.incarnation()));

    let mut membership = membership(own);

    let merge = membership.merge(&[wire(predecessor, MemberState::Up)], NOW);

    assert_eq!(merge.to_down, vec![predecessor]);
    assert!(merge.new_up.is_empty());
    assert!(!merge.self_down);
    assert!(!membership.is_up(predecessor));
    assert!(membership.up_peers().is_empty());
}

#[test]
fn merge_self_downs_against_a_successor_at_this_nodes_address() {
    let shared = addr(1);
    let own = NodeId::new(shared);
    let successor = NodeId::new(shared);
    assert!(own.incarnation().older_than(successor.incarnation()));

    let mut membership = membership(own);

    let merge = membership.merge(&[wire(successor, MemberState::Up)], NOW);

    assert!(merge.self_down);
}

#[test]
fn retention_sweeps_down_entries_but_keeps_the_watermark() {
    let own = node(1);
    let mut membership = membership(own);
    let peer = node(2);
    membership.add_up(peer, NOW);
    membership.down(peer, NOW);
    assert!(membership.is_down(peer));

    membership.sweep(3_600 * SECS, NOW + SECS);
    assert!(membership.is_down(peer));
    assert!(membership
        .snapshot()
        .contains(&wire(peer, MemberState::Down)));

    membership.sweep(0, NOW + SECS);
    assert!(membership.is_down(peer));
    assert_eq!(membership.members().len(), 1);
    assert_eq!(membership.snapshot(), vec![wire(own, MemberState::Up)]);

    let handshake = membership.handshake_snapshot();
    assert_eq!(handshake.len(), 2);
    assert!(handshake.contains(&wire(peer, MemberState::Down)));
    assert!(handshake.contains(&wire(own, MemberState::Up)));
}

#[test]
fn a_down_watermark_fences_older_incarnations_and_admits_a_restart() {
    let mut membership = membership(node(1));
    let stale = node(2);
    let downed = node(2);
    let restarted = node(2);

    assert!(stale.incarnation().older_than(downed.incarnation()));
    assert!(downed.incarnation().older_than(restarted.incarnation()));
    assert!(membership.add_up(downed, NOW));
    assert!(membership.down(downed, NOW).member_changed);
    membership.sweep(0, NOW + SECS);

    assert!(membership.is_down(stale));
    assert!(membership.is_down(downed));
    assert!(!membership.add_up(stale, NOW));
    assert!(!membership.add_up(downed, NOW));
    assert!(membership.add_up(restarted, NOW));
    assert!(membership.is_up(restarted));
}

#[test]
fn a_newer_down_watermark_terminates_an_older_up_member() {
    let mut membership = membership(node(1));
    let older = node(2);
    let newer = node(2);
    assert!(older.incarnation().older_than(newer.incarnation()));
    assert!(membership.add_up(older, NOW));

    let merge = membership.merge(&[wire(newer, MemberState::Down)], NOW);

    assert_eq!(merge.to_down, vec![older]);
    assert_eq!(merge.to_flush, vec![newer]);
    assert!(membership.is_down(older));
    assert!(membership.is_down(newer));
    assert!(membership.down(older, NOW).member_changed);
    assert!(!membership.is_up(older));
    assert!(membership
        .handshake_snapshot()
        .contains(&wire(newer, MemberState::Down)));
}

#[test]
fn a_wire_member_never_encodes_beyond_the_chunking_bound() {
    let widest = wire(widest_node(), MemberState::Down);

    let len = encoded_len(&widest);

    assert!(len <= MAX_ENCODED_LEN, "{len} exceeds the bound");
}

#[test]
fn chunking_bounds_each_gossip_frame_and_marks_all_but_the_last() {
    let members = (0..100)
        .map(|port| wire(node(port + 1), MemberState::Down))
        .collect::<Vec<_>>();
    let max_frame_size = 1_000;

    let frames = snapshot_frames(members.clone(), max_frame_size);

    assert!(frames.len() > 1);
    let mut rejoined = Vec::<WireMember>::new();
    for (index, frame) in frames.iter().enumerate() {
        let len = frame.encoded_len();
        assert!(len <= max_frame_size, "{len} exceeds {max_frame_size}");
        let Frame::Gossip { members, more } = frame else {
            panic!("not a gossip frame");
        };
        assert_eq!(*more, index + 1 < frames.len());
        rejoined.extend(members.iter().copied());
    }
    assert_eq!(rejoined, members);

    let single = snapshot_frames(members, 1_000_000);
    assert_eq!(single.len(), 1);
    assert!(matches!(single[0], Frame::Gossip { more: false, .. }));
    assert!(matches!(
        snapshot_frames(Vec::new(), 1).as_slice(),
        [Frame::Gossip { members, more: false }] if members.is_empty()
    ));
}

#[test]
fn the_minimum_frame_size_holds_a_chunk_of_the_widest_members() {
    let members = vec![wire(widest_node(), MemberState::Down); 10];

    let frames = snapshot_frames(members, MIN_FRAME_SIZE);

    assert!(frames.len() > 1);
    for frame in &frames {
        let len = frame.encoded_len();
        assert!(len <= MIN_FRAME_SIZE, "{len} exceeds {MIN_FRAME_SIZE}");
    }
}

#[test]
fn a_swept_fence_reaches_an_absent_node_through_the_handshake_snapshot() {
    let downed = node(2);
    let mut cluster = membership(node(1));
    cluster.add_up(downed, NOW);
    cluster.down(downed, NOW);
    cluster.sweep(0, NOW + SECS);

    let mut absent = membership(node(3));
    absent.add_up(downed, NOW);

    let merge = absent.merge(&cluster.snapshot(), NOW);
    assert!(merge.to_down.is_empty());
    assert!(merge.to_flush.is_empty());
    assert!(absent.is_up(downed));

    let merge = absent.merge(&cluster.handshake_snapshot(), NOW);

    assert_eq!(merge.to_down, vec![downed]);
    assert_eq!(merge.to_flush, vec![downed]);
    assert!(absent.is_down(downed));
    assert!(absent.down(downed, NOW).member_changed);
    assert!(!absent.is_up(downed));
}

#[test]
fn merge_self_downs_against_a_down_watermark_at_its_address() {
    let shared = addr(1);
    let own = NodeId::new(shared);
    let successor = NodeId::new(shared);
    assert!(own.incarnation().older_than(successor.incarnation()));
    let mut membership = membership(own);

    let merge = membership.merge(&[wire(successor, MemberState::Down)], NOW);

    assert!(merge.self_down);
    assert_eq!(merge.to_flush, vec![successor]);
    assert!(membership.is_down(own));
    assert!(membership
        .handshake_snapshot()
        .contains(&wire(successor, MemberState::Down)));
}

#[test]
fn merging_in_any_order_converges() {
    let (own, first, second) = (node(1), node(2), node(3));
    let records = [
        wire(first, MemberState::Up),
        wire(second, MemberState::Up),
        wire(first, MemberState::Down),
    ];
    let orders = [[0, 1, 2], [2, 1, 0], [1, 2, 0], [2, 0, 1]];
    for order in orders {
        let mut membership = membership(own);
        for index in order {
            let merge = membership.merge(&[records[index]], NOW);
            for dead in merge.to_down {
                membership.down(dead, NOW);
            }
        }
        assert_eq!(membership.up_peers(), vec![second]);
        assert!(membership.is_down(first));
    }
}

fn members(nodes: &[NodeId]) -> Vec<Member> {
    nodes
        .iter()
        .map(|node| Member::new(*node, MemberState::Up))
        .collect()
}

fn merge_all(table: &mut Reachability, records: &[WireReachability], nodes: &[NodeId]) {
    table.merge(records, nodes);
    table.promote_pending(nodes);
}

fn observe(table: &mut Reachability, subject: NodeId, reachable: bool) -> WireReachability {
    assert!(table.observe(subject, reachable), "the edge must change");
    let own = table.node();
    table
        .take_outbound(&[own, subject])
        .into_iter()
        .find(|record| record.subject == subject)
        .expect("the new statement is queued for the next push")
}

#[test]
fn a_single_broken_link_stays_connected_through_a_third_member() {
    let nodes = [node(1), node(2), node(3)];
    let mut a = Reachability::new(nodes[0]);
    let mut b = Reachability::new(nodes[1]);
    let mut c = Reachability::new(nodes[2]);
    let records = [
        observe(&mut a, nodes[1], false),
        observe(&mut b, nodes[0], false),
    ];
    for table in [&mut a, &mut b, &mut c] {
        merge_all(table, &records, &nodes);
        assert!(table.unreachable_members(&members(&nodes), NOW).is_empty());
    }
}

#[test]
fn a_partition_is_derived_from_the_shared_graph() {
    let nodes = [node(1), node(2), node(3)];
    let mut a = Reachability::new(nodes[0]);
    let mut b = Reachability::new(nodes[1]);
    let mut c = Reachability::new(nodes[2]);
    let records = [
        observe(&mut a, nodes[1], false),
        observe(&mut a, nodes[2], false),
        observe(&mut b, nodes[0], false),
        observe(&mut c, nodes[0], false),
    ];
    for table in [&mut a, &mut b, &mut c] {
        merge_all(table, &records, &nodes);
    }

    let all_members = members(&nodes);
    let unreachable_a = a.unreachable_members(&all_members, NOW);
    let outside_a = unreachable_a
        .iter()
        .map(|(member, _)| member.node())
        .collect::<Vec<_>>();
    assert_eq!(outside_a, vec![nodes[1], nodes[2]]);
    let after = 10 * SECS;
    let at = unreachable_a[0].1 + after;
    assert_eq!(
        KeepMajority::new(after).down(&all_members, Disconnected::new(&unreachable_a), at),
        Downing::SelfDown
    );
    for table in [&mut b, &mut c] {
        let unreachable = table.unreachable_members(&all_members, NOW);
        let outside = unreachable
            .iter()
            .map(|(member, _)| member.node())
            .collect::<Vec<_>>();
        assert_eq!(outside, vec![nodes[0]]);
        assert_eq!(
            KeepMajority::new(after).down(
                &all_members,
                Disconnected::new(&unreachable),
                unreachable[0].1 + after
            ),
            Downing::Members(vec![all_members[0]])
        );
    }
}

#[test]
fn a_relayed_record_parked_while_membership_lags_is_promoted_and_relayed_on() {
    let nodes = [node(1), node(2), node(3)];
    let mut a = Reachability::new(nodes[0]);
    let mut b = Reachability::new(nodes[1]);
    let b_to_c = observe(&mut b, nodes[2], false);
    let a_to_c = observe(&mut a, nodes[2], false);

    let lagging = [nodes[0], nodes[1]];
    a.merge(&[b_to_c], &lagging);
    a.promote_pending(&lagging);
    assert!(a.take_outbound(&lagging).is_empty());
    assert!(a.unreachable_members(&members(&nodes), NOW).is_empty());

    a.promote_pending(&nodes);

    assert_eq!(a.take_outbound(&nodes), vec![a_to_c, b_to_c]);
    let outside = a
        .unreachable_members(&members(&nodes), NOW)
        .iter()
        .map(|(member, _)| member.node())
        .collect::<Vec<_>>();
    assert_eq!(outside, vec![nodes[2]]);
}

#[test]
fn a_push_drains_what_was_learned_and_re_asserts_own_failures() {
    let nodes = [node(1), node(2), node(3)];
    let mut a = Reachability::new(nodes[0]);
    let mut b = Reachability::new(nodes[1]);

    let a_to_b = observe(&mut a, nodes[1], false);
    observe(&mut a, nodes[2], false);
    observe(&mut a, nodes[2], true);
    let b_to_c = observe(&mut b, nodes[2], false);
    a.merge(&[b_to_c], &nodes);

    assert_eq!(a.take_outbound(&nodes), vec![a_to_b, b_to_c]);
    assert_eq!(a.take_outbound(&nodes), vec![a_to_b]);
}

#[test]
fn the_pending_table_is_bounded() {
    let local = node(1);
    let mut table = Reachability::new(local);
    let observer = node(9_000);
    let records = (0..MAX_PENDING + 8)
        .map(|version| WireReachability {
            observer,
            subject: node(10_000 + version as u16),
            version: version as u64,
            reachable: false,
        })
        .collect::<Vec<_>>();

    table.merge(&records, &[local]);

    assert_eq!(table.parked_len(), MAX_PENDING);
}

#[test]
fn versions_make_recovery_monotone() {
    let nodes = [node(1), node(2)];
    let mut owner = Reachability::new(nodes[0]);
    let mut replica = Reachability::new(nodes[1]);
    let failed = observe(&mut owner, nodes[1], false);
    let recovered = observe(&mut owner, nodes[1], true);
    merge_all(&mut replica, &[recovered, failed], &nodes);

    assert!(replica
        .unreachable_members(&members(&nodes), NOW)
        .is_empty());
    assert_eq!(replica.snapshot(&nodes), vec![recovered]);
}

#[test]
fn reachability_snapshots_respect_the_frame_limit() {
    let record = WireReachability {
        observer: widest_node(),
        subject: widest_node(),
        version: u64::MAX,
        reachable: false,
    };
    assert!(encoded_len(&record) <= reachability::MAX_ENCODED_LEN);
    let frames = reachability::snapshot_frames(vec![record; 10], reachability::MIN_FRAME_SIZE);
    assert!(!frames.is_empty());
    for frame in frames {
        assert!(frame.encode_into(Vec::new()).len() <= reachability::MIN_FRAME_SIZE);
    }
}

#[test]
fn a_pruned_fence_leaves_no_statement_behind() {
    let nodes = [node(1), node(2), node(3)];
    let mut a = Reachability::new(nodes[0]);
    let mut b = Reachability::new(nodes[1]);
    let about_b = observe(&mut a, nodes[1], false);
    let by_b = observe(&mut b, nodes[2], false);
    a.merge(&[by_b], &nodes);
    assert_eq!(a.snapshot(&nodes), vec![about_b, by_b]);

    a.prune_fenced(nodes[1]);

    assert!(a.snapshot(&nodes).is_empty());
    assert!(a.take_outbound(&nodes).is_empty());
    assert!(a.unreachable_members(&members(&nodes), NOW).is_empty());
}
