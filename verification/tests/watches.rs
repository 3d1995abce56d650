use tellus::addr::SocketAddr;
use tellus::cluster::watch::{WatcherTable, WireWatchTable};
use tellus::ids::{ActorId, NodeId};
use tellus::watch::Watcher;

fn watcher(id: ActorId) -> Watcher<()> {
    Watcher::new(id, ())
}

fn addr() -> SocketAddr {
    SocketAddr::v4(127, 0, 0, 1, 1234)
}

fn peer() -> NodeId {
    NodeId::new(addr())
}

#[test]
fn take_addr_takes_every_incarnation_at_the_address() {
    let mut table = WatcherTable::new();
    let (target, elsewhere_target) = (ActorId::new(), ActorId::new());

    table.add(NodeId::new(addr()), target, watcher(ActorId::new()));
    table.add(NodeId::new(addr()), target, watcher(ActorId::new()));
    table.add(
        NodeId::new(SocketAddr::v4(127, 0, 0, 1, 5678)),
        elsewhere_target,
        watcher(ActorId::new()),
    );

    let taken = table.take_addr(addr());

    assert_eq!(taken.len(), 2);
    assert!(taken.iter().all(|(taken, _)| *taken == target));
    assert!(table.take_addr(addr()).is_empty());
    assert_eq!(table.peers().len(), 1);
}

#[test]
fn take_fenced_spares_a_newer_incarnation_at_the_address() {
    let mut table = WatcherTable::new();
    let older = NodeId::new(addr());
    let fence = NodeId::new(addr());
    let newer = NodeId::new(addr());
    assert!(older.incarnation().older_than(fence.incarnation()));
    assert!(fence.incarnation().older_than(newer.incarnation()));
    let (target, newer_target) = (ActorId::new(), ActorId::new());

    table.add(older, target, watcher(ActorId::new()));
    table.add(fence, target, watcher(ActorId::new()));
    table.add(newer, newer_target, watcher(ActorId::new()));

    let taken = table.take_fenced(fence);

    assert_eq!(taken.len(), 2);
    assert!(taken.iter().all(|(taken, _)| *taken == target));
    assert_eq!(table.peers(), vec![newer]);
}

#[test]
fn confirm_keeps_watchers_added_while_pending() {
    let mut table = WireWatchTable::new();
    let peer = peer();
    let target = ActorId::new();
    let (first, second) = (ActorId::new(), ActorId::new());

    assert!(table.add(peer, target, first));
    assert!(!table.add(peer, target, second));

    let wire_watcher_id = ActorId::new();
    table.confirm(peer, target, wire_watcher_id);

    assert_eq!(table.remove(peer, target, first), None);
    assert_eq!(table.remove(peer, target, second), Some(wire_watcher_id));
}

#[test]
fn take_hands_back_all_watchers() {
    let mut table = WireWatchTable::new();
    let peer = peer();
    let target = ActorId::new();
    let (first, second) = (ActorId::new(), ActorId::new());

    table.add(peer, target, first);
    table.add(peer, target, second);
    table.confirm(peer, target, ActorId::new());

    let watchers = table
        .take(peer, target)
        .expect("the wire watch is registered")
        .watchers;
    assert_eq!(watchers.len(), 2);
    assert!(watchers.contains(&first));
    assert!(watchers.contains(&second));

    assert!(table.take(peer, target).is_none());
}

#[test]
fn every_watcher_moves_the_wire_watch() {
    let mut table = WatcherTable::new();
    let peer = peer();
    let target = ActorId::new();
    let (first, second) = (ActorId::new(), ActorId::new());

    assert!(table.add(peer, target, watcher(first)));
    assert!(table.add(peer, target, watcher(second)));

    assert!(table.remove(peer, target, first));
    assert!(table.remove(peer, target, second));
    assert!(!table.remove(peer, target, second));
}

#[test]
fn adding_a_watcher_twice_registers_once() {
    let mut table = WatcherTable::new();
    let peer = peer();
    let target = ActorId::new();
    let id = ActorId::new();

    assert!(table.add(peer, target, watcher(id)));
    assert!(!table.add(peer, target, watcher(id)));

    assert_eq!(table.take_target(peer, target).len(), 1);
}

#[test]
fn removing_unknown_entries_is_a_noop() {
    let mut table = WatcherTable::new();
    let peer = peer();
    let target = ActorId::new();

    assert!(!table.remove(peer, target, ActorId::new()));
    assert!(table.take_target(peer, target).is_empty());
    assert!(table.take_fenced(peer).is_empty());

    assert!(table.add(peer, target, watcher(ActorId::new())));
    assert!(!table.remove(peer, ActorId::new(), ActorId::new()));
}

#[test]
fn taking_watchers_forgets_the_peer() {
    let mut table = WatcherTable::new();
    let peer = peer();
    let (first, second) = (ActorId::new(), ActorId::new());

    assert!(table.add(peer, first, watcher(ActorId::new())));
    assert!(table.add(peer, second, watcher(ActorId::new())));
    assert_eq!(table.peers(), vec![peer]);
    assert_eq!(table.watches(peer).len(), 2);

    assert_eq!(table.take_target(peer, first).len(), 1);
    assert_eq!(table.take_fenced(peer).len(), 1);
    assert!(table.peers().is_empty());
}

#[test]
fn taking_one_watcher_keeps_the_others() {
    let mut table = WatcherTable::new();
    let peer = peer();
    let target = ActorId::new();
    let (first, second) = (ActorId::new(), ActorId::new());

    table.add(peer, target, watcher(first));
    table.add(peer, target, watcher(second));

    assert!(table.take_watcher(peer, target, first).is_some());
    assert!(table.take_watcher(peer, target, first).is_none());
    assert_eq!(table.watches(peer), vec![(target, second)]);

    assert!(table.take_watcher(peer, target, second).is_some());
    assert!(table.peers().is_empty());
}

#[test]
fn a_fence_releases_the_wire_watches_it_covers() {
    let mut table = WireWatchTable::new();
    let older = peer();
    let fence = peer();
    let newer = peer();
    let target = ActorId::new();
    for node in [older, fence, newer] {
        assert!(table.add(node, target, ActorId::new()));
    }
    let wire_watcher_id = ActorId::new();
    table.confirm(older, target, wire_watcher_id);

    let registered = table.take_fenced(fence);

    assert_eq!(registered.len(), 1);
    assert_eq!(registered[0].target, target);
    assert_eq!(registered[0].wire_watcher_id, wire_watcher_id);
    assert!(table.take(older, target).is_none());
    assert!(table.take(fence, target).is_none());
    assert!(table.take(newer, target).is_some());
}
