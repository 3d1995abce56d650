//! What gossip promises of a member list: deaths are final, merging again changes nothing, and the
//! younger of two incarnations at an address wins in whatever order they are heard of.

use vstd::prelude::*;

use crate::cluster::membership::{is_kept, is_oldest, is_up_at, is_up_covered, is_up_entry,
    is_up_peer, lemma_oldest_exists, nodes_of, Member, MemberEntry, MemberState, MembershipModel,
    Merging};
use crate::ids::NodeId;
use crate::seqs::{first, is_first, lemma_contains_add, lemma_contains_push, lemma_filter_contains,
    lemma_filter_none, lemma_first_found, lemma_first_some};
use crate::sort::Ranked;
use crate::table::{as_map, distinct, has_key, key_index, lemma_filter, lemma_key_index, lemma_put, put,
    value_of};

verus! {

/// One more watermark, or a younger one at an address which has one, stays within the cap.
pub open spec fn has_room(m: MembershipModel, node: NodeId) -> bool {
    m.down.len() < m.cap || has_key(m.down, node.addr)
}

pub proof fn lemma_put_get<K, V>(s: Seq<(K, V)>, key: K, value: V, other: K)
    requires
        distinct(s),
    ensures
        has_key(put(s, key, value), other) == (other == key || has_key(s, other)),
        value_of(put(s, key, value), other) == if other == key {
            Some(value)
        } else {
            value_of(s, other)
        },
{
    lemma_put(s, key, value);
    let t = put(s, key, value);
    assert(as_map(t).dom().contains(other) == has_key(t, other));
    assert(as_map(s).dom().contains(other) == has_key(s, other));
    if has_key(t, other) {
        assert(as_map(t)[other] == value_of(t, other)->0);
        if other != key {
            assert(as_map(s)[other] == value_of(s, other)->0);
        }
    }
}

pub proof fn lemma_raised(m: MembershipModel, node: NodeId)
    requires
        m.wf(),
        has_room(m, node),
    ensures
        m.raised(node).down == if m.raises(node) {
            put(m.down, node.addr, node)
        } else {
            m.down
        },
        m.raised(node).wf(),
        m.raised(node).down.len() <= m.down.len() + 1,
        m.raised(node).is_down(node),
{
    lemma_put(m.down, node.addr, node);
    lemma_put_get(m.down, node.addr, node, node.addr);
    let t = put(m.down, node.addr, node);
    assert forall|i: int| 0 <= i < t.len() implies (#[trigger] t[i]).1.addr == t[i].0 by {
        if !(i < m.down.len() && t[i] == m.down[i]) {
            assert(t[i] == (node.addr, node));
        }
    }
    if !m.raises(node) {
        let i = key_index(m.down, node.addr);
        assert(m.down[i].1.addr == m.down[i].0);
    }
}

/// Down is terminal: a fenced incarnation is not admitted again, neither by a join nor by gossip
/// which still lists it Up.
pub proof fn down_is_terminal(m: MembershipModel, node: NodeId, at: u128)
    requires
        m.wf(),
        m.is_down(node),
    ensures
        !m.admits(node),
        m.added_up(node, at) == m,
        Merging::start(m).with_all(seq![Member { node, state: MemberState::Up }], at)
            == Merging::start(m),
{
    let gossip = seq![Member { node, state: MemberState::Up }];
    assert(gossip.drop_last() =~= Seq::empty());
    assert(Merging::start(m).with_all(gossip.drop_last(), at) == Merging::start(m));
}

/// A death fences the incarnation and all its predecessors at the address.
pub proof fn a_death_fences_every_predecessor(
    m: MembershipModel,
    node: NodeId,
    older: NodeId,
    at: u128,
)
    requires
        m.wf(),
        has_room(m, node),
        node.fences(older),
    ensures
        m.downed(node, at).is_down(older),
        !m.downed(node, at).is_up(node),
        !m.downed(node, at).admits(older),
{
    lemma_raised(m, node);
    lemma_put_get(
        m.members,
        node,
        MemberEntry { state: MemberState::Down, changed_at: at },
        node,
    );
    let watermark = value_of(m.raised(node).down, node.addr)->0;
    assert(watermark.fences(node));
    assert(watermark.fences(older));
}

/// A restart is not fenced by the death of its predecessor.
pub proof fn a_restart_is_admitted(m: MembershipModel, node: NodeId, restarted: NodeId, at: u128)
    requires
        m.wf(),
        has_room(m, node),
        m.admits(restarted),
        restarted.addr == node.addr,
        node.incarnation.0 < restarted.incarnation.0,
    ensures
        m.downed(node, at).admits(restarted),
        m.downed(node, at).added_up(restarted, at).is_up(restarted),
{
    lemma_raised(m, node);
    let entry = MemberEntry { state: MemberState::Down, changed_at: at };
    lemma_put_get(m.members, node, entry, restarted);
    lemma_put_get(m.down, node.addr, node, node.addr);
    lemma_put(m.members, node, entry);
    let d = m.downed(node, at);
    lemma_put_get(
        d.members,
        restarted,
        MemberEntry { state: MemberState::Up, changed_at: at },
        restarted,
    );
}

/// A fence outlives everything which happens to other members: other deaths, joins, and the sweep
/// which forgets the Down entry itself. Only a watermark beyond the cap can displace it.
pub proof fn a_fence_stays(
    m: MembershipModel,
    fenced: NodeId,
    other: NodeId,
    retention: u128,
    at: u128,
)
    requires
        m.wf(),
        m.is_down(fenced),
    ensures
        has_room(m, other) ==> m.raised(other).is_down(fenced),
        has_room(m, other) ==> m.downed(other, at).is_down(fenced),
        m.added_up(other, at).is_down(fenced),
        m.swept(retention, at).is_down(fenced),
{
    if has_room(m, other) {
        lemma_raised(m, other);
        lemma_put_get(m.down, other.addr, other, fenced.addr);
    }
}

/// A sweep forgets only Down members, so nothing becomes Up or stops being Up by it.
pub proof fn a_sweep_keeps_the_up_members(
    m: MembershipModel,
    node: NodeId,
    retention: u128,
    at: u128,
)
    requires
        m.wf(),
    ensures
        m.swept(retention, at).is_up(node) == m.is_up(node),
{
    lemma_filter(m.members, is_kept(retention, at));
    let kept = m.swept(retention, at).members;
    if has_key(m.members, node) {
        let entry = value_of(m.members, node)->0;
        assert(has_key(kept, node) == is_kept(retention, at)((node, entry)));
    } else {
        assert(!has_key(kept, node));
    }
    if has_key(kept, node) {
        assert(value_of(kept, node) == value_of(m.members, node));
    }
}

/// The member is nothing new to the list: a listed, fenced or own node Up, or a death whose
/// watermark is there and which covers nobody Up.
pub open spec fn is_absorbed(m: MembershipModel, member: Member) -> bool {
    match member.state {
        MemberState::Up => member.node == m.node || !m.admits(member.node),
        MemberState::Down => {
            &&& !m.raises(member.node)
            &&& !member.node.fences(m.node)
            &&& forall|i: int|
                0 <= i < m.members.len() ==> !is_up_covered(member.node)(#[trigger] m.members[i])
        },
    }
}

/// Merging what is already known changes nothing and asks for nothing, however often and in
/// whatever order it arrives.
pub proof fn merging_known_members_changes_nothing(
    m: MembershipModel,
    members: Seq<Member>,
    at: u128,
)
    requires
        m.wf(),
        forall|i: int| 0 <= i < members.len() ==> is_absorbed(m, #[trigger] members[i]),
    ensures
        Merging::start(m).with_all(members, at) == Merging::start(m),
    decreases members.len(),
{
    if members.len() > 0 {
        let rest = members.drop_last();
        assert forall|i: int| 0 <= i < rest.len() implies is_absorbed(m, #[trigger] rest[i]) by {
            assert(rest[i] == members[i]);
        }
        merging_known_members_changes_nothing(m, rest, at);
        let last = members[members.len() - 1];
        assert(is_absorbed(m, last));
        let start = Merging::start(m);
        if last.state == MemberState::Down {
            lemma_filter_none(m.members, is_up_covered(last.node));
            assert(m.raised(last.node) =~= m);
            let covered = crate::cluster::membership::nodes_of(
                m.members.filter(is_up_covered(last.node)),
            );
            assert(start.merge.to_down + covered =~= start.merge.to_down);
            assert(start.with(last, at) =~= start);
        }
    }
}

/// Two incarnations of one address, heard of in either order, leave the younger one Up and ask for
/// the death of the older one, after which the older one is fenced.
pub proof fn the_younger_incarnation_wins(
    m: MembershipModel,
    older: NodeId,
    younger: NodeId,
    at: u128,
)
    requires
        m.wf(),
        has_room(m, older),
        older.addr == younger.addr,
        older.addr != m.node.addr,
        older.incarnation.0 < younger.incarnation.0,
        m.admits(older),
        m.admits(younger),
        m.up_member_at(older.addr) is None,
    ensures
        ({
            let up = |node: NodeId| seq![Member { node, state: MemberState::Up }];
            let first = Merging::start(m.added_up(older, at)).with_all(up(younger), at);
            let second = Merging::start(m.added_up(younger, at)).with_all(up(older), at);
            &&& first.merge.to_down == seq![older]
            &&& second.merge.to_down == seq![older]
            &&& !first.merge.self_down && !second.merge.self_down
            &&& first.membership.downed(older, at).is_up(younger)
            &&& second.membership.downed(older, at).is_up(younger)
            &&& !first.membership.downed(older, at).is_up(older)
            &&& !second.membership.downed(older, at).is_up(older)
            &&& first.membership.downed(older, at).is_down(older)
            &&& second.membership.downed(older, at).is_down(older)
        }),
{
    let entry = MemberEntry { state: MemberState::Up, changed_at: at };
    let gone = MemberEntry { state: MemberState::Down, changed_at: at };
    let p = is_up_at(older.addr);
    lemma_first_some(m.members, p);
    let a = m.added_up(older, at);
    let b = m.added_up(younger, at);
    let ups = |node: NodeId| seq![Member { node, state: MemberState::Up }];
    assert(ups(younger).drop_last() =~= Seq::empty());
    assert(ups(older).drop_last() =~= Seq::empty());
    assert(ups(younger).last().node == younger);
    assert(ups(older).last().node == older);
    assert(a.members == m.members.push((older, entry)));
    assert(b.members == m.members.push((younger, entry)));
    lemma_first_found(a.members, p, m.members.len() as int);
    lemma_first_found(b.members, p, m.members.len() as int);
    lemma_put(m.members, older, entry);
    lemma_put(m.members, younger, entry);
    lemma_put_get(m.members, older, entry, younger);
    lemma_put_get(m.members, older, entry, older);
    lemma_put_get(m.members, younger, entry, older);
    lemma_put_get(m.members, younger, entry, younger);
    let one = Merging::start(a).with_all(ups(younger), at);
    let two = Merging::start(b).with_all(ups(older), at);
    assert(Merging::start(a).with_all(Seq::empty(), at) == Merging::start(a));
    assert(Merging::start(b).with_all(Seq::empty(), at) == Merging::start(b));
    assert(one == Merging::start(a).with_up(younger, at));
    assert(two == Merging::start(b).with_up(older, at));
    assert(one.merge.to_down =~= seq![older]);
    assert(two.merge.to_down =~= seq![older]);
    lemma_put(a.members, younger, entry);
    lemma_put_get(a.members, younger, entry, older);
    lemma_put_get(a.members, younger, entry, younger);
    lemma_raised(one.membership, older);
    lemma_raised(two.membership, older);
    lemma_put_get(one.membership.members, older, gone, younger);
    lemma_put_get(one.membership.members, older, gone, older);
    lemma_put_get(two.membership.members, older, gone, younger);
    lemma_put_get(two.membership.members, older, gone, older);
}

/// The list accounts for a gossiped member: a death is fenced, and an Up member is this node,
/// listed, fenced, or to be downed because a younger incarnation holds its address.
pub open spec fn accounts_for(merging: Merging, member: Member) -> bool {
    let m = merging.membership;
    match member.state {
        MemberState::Down => m.is_down(member.node),
        MemberState::Up => {
            ||| member.node == m.node
            ||| has_key(m.members, member.node)
            ||| m.is_down(member.node)
            ||| merging.merge.to_down.contains(member.node)
        },
    }
}

proof fn lemma_step_accounts(merging: Merging, member: Member, other: Member, at: u128)
    requires
        merging.membership.wf(),
        merging.membership.down.len() < merging.membership.cap,
        !merging.with(member, at).stopped,
    ensures
        merging.with(member, at).membership.wf(),
        merging.with(member, at).membership.node == merging.membership.node,
        merging.with(member, at).membership.cap == merging.membership.cap,
        merging.with(member, at).membership.down.len() <= merging.membership.down.len() + 1,
        accounts_for(merging.with(member, at), member),
        accounts_for(merging, other) ==> accounts_for(merging.with(member, at), other),
{
    let m = merging.membership;
    let next = merging.with(member, at);
    let node = member.node;
    match member.state {
        MemberState::Down => {
            lemma_raised(m, node);
            if m.is_down(other.node) {
                a_fence_stays(m, other.node, node, 0, at);
            }
            if !node.fences(m.node) {
                let covered = crate::cluster::membership::nodes_of(
                    m.raised(node).members.filter(is_up_covered(node)),
                );
                lemma_contains_add(merging.merge.to_down, covered, other.node);
            }
        },
        MemberState::Up => {
            if node != m.node && m.admits(node) {
                let entry = MemberEntry { state: MemberState::Up, changed_at: at };
                lemma_put(m.members, node, entry);
                lemma_put_get(m.members, node, entry, node);
                lemma_put_get(m.members, node, entry, other.node);
                lemma_contains_push(merging.merge.to_down, node, node);
                lemma_contains_push(merging.merge.to_down, node, other.node);
                if let Some(superseded) = m.up_member_at(node.addr) {
                    lemma_contains_push(merging.merge.to_down, superseded, other.node);
                }
            }
        },
    }
}

/// After a merge which did not find this node superseded, every gossiped member is accounted for,
/// so a list which reached a node once leaves nothing for it to catch up on.
pub proof fn a_merge_accounts_for_every_member(m: MembershipModel, members: Seq<Member>, at: u128)
    requires
        m.wf(),
        m.down.len() + members.len() <= m.cap,
        !Merging::start(m).with_all(members, at).stopped,
    ensures
        forall|i: int|
            0 <= i < members.len() ==> accounts_for(
                Merging::start(m).with_all(members, at),
                #[trigger] members[i],
            ),
        Merging::start(m).with_all(members, at).membership.wf(),
        Merging::start(m).with_all(members, at).membership.down.len() <= m.down.len()
            + members.len(),
        Merging::start(m).with_all(members, at).membership.cap == m.cap,
    decreases members.len(),
{
    if members.len() > 0 {
        let rest = members.drop_last();
        let before = Merging::start(m).with_all(rest, at);
        let last = members.last();
        assert(!before.stopped);
        a_merge_accounts_for_every_member(m, rest, at);
        assert forall|i: int| 0 <= i < members.len() implies accounts_for(
            before.with(last, at),
            #[trigger] members[i],
        ) by {
            lemma_step_accounts(before, last, members[i], at);
            if i < rest.len() {
                assert(rest[i] == members[i]);
            }
        }
        lemma_step_accounts(before, last, last, at);
    }
}

/// A node is up where the list says so, and fenced where a watermark at its address is as young.
pub proof fn a_node_is_what_the_list_says(m: MembershipModel, node: NodeId)
    requires
        m.wf(),
    ensures
        m.is_up(node) <==> exists|i: int|
            0 <= i < m.members.len() && (#[trigger] m.members[i]).0 == node && m.members[i].1.state
                == MemberState::Up,
        m.is_down(node) <==> exists|i: int|
            0 <= i < m.down.len() && (#[trigger] m.down[i]).1.addr == node.addr
                && m.down[i].1.incarnation.0 >= node.incarnation.0,
        m.raises(node) <==> !m.is_down(node),
        m.admits(node) <==> !m.is_down(node) && forall|i: int|
            0 <= i < m.members.len() ==> (#[trigger] m.members[i]).0 != node,
{
    if has_key(m.members, node) {
        let i = key_index(m.members, node);
        assert(m.members[i].0 == node);
    }
    assert forall|i: int| 0 <= i < m.members.len() && (#[trigger] m.members[i]).0 == node implies
        value_of(m.members, node) == Some(m.members[i].1) by {
        lemma_key_index(m.members, i);
    }
    if has_key(m.down, node.addr) {
        let i = key_index(m.down, node.addr);
        assert(m.down[i].0 == node.addr);
        assert(m.down[i].1.addr == m.down[i].0);
    }
    assert forall|i: int| 0 <= i < m.down.len() && (#[trigger] m.down[i]).1.addr
        == node.addr implies value_of(m.down, node.addr) == Some(m.down[i].1) by {
        lemma_key_index(m.down, i);
    }
}

/// The nodes up are those the list has as Up, the peers among them all but this node, and an address
/// has a member up where the list has one Up there.
pub proof fn the_nodes_up_are_those_listed(m: MembershipModel, node: NodeId)
    requires
        m.wf(),
    ensures
        m.up_nodes().contains(node) <==> exists|i: int|
            0 <= i < m.members.len() && (#[trigger] m.members[i]).0 == node && m.members[i].1.state
                == MemberState::Up,
        m.up_peers().contains(node) <==> node != m.node && m.up_nodes().contains(node),
        m.up_member_at(node.addr) is None <==> forall|i: int|
            0 <= i < m.members.len() && (#[trigger] m.members[i]).0.addr == node.addr
                ==> m.members[i].1.state == MemberState::Down,
        m.up_member_at(node.addr) matches Some(up) ==> up.addr == node.addr
            && m.up_nodes().contains(up),
{
    let up = m.members.filter(is_up_entry());
    let peers = m.members.filter(is_up_peer(m.node));
    assert forall|n: NodeId| #[trigger] m.up_nodes().contains(n) == (exists|i: int|
        0 <= i < m.members.len() && (#[trigger] m.members[i]).0 == n && m.members[i].1.state
            == MemberState::Up) by {
        if m.up_nodes().contains(n) {
            let j = choose|j: int| 0 <= j < nodes_of(up).len() && nodes_of(up)[j] == n;
            assert(up.contains(up[j]));
            lemma_filter_contains(m.members, is_up_entry(), up[j]);
            let i = choose|i: int| 0 <= i < m.members.len() && m.members[i] == up[j];
            assert(m.members[i].0 == n);
        }
        if exists|i: int|
            0 <= i < m.members.len() && (#[trigger] m.members[i]).0 == n && m.members[i].1.state
                == MemberState::Up {
            let i = choose|i: int|
                0 <= i < m.members.len() && (#[trigger] m.members[i]).0 == n && m.members[i].1.state
                    == MemberState::Up;
            lemma_filter_contains(m.members, is_up_entry(), m.members[i]);
            let j = choose|j: int| 0 <= j < up.len() && up[j] == m.members[i];
            assert(nodes_of(up)[j] == n);
        }
    }
    if m.up_peers().contains(node) {
        let j = choose|j: int| 0 <= j < nodes_of(peers).len() && nodes_of(peers)[j] == node;
        assert(peers.contains(peers[j]));
        lemma_filter_contains(m.members, is_up_peer(m.node), peers[j]);
        let i = choose|i: int| 0 <= i < m.members.len() && m.members[i] == peers[j];
        assert(m.members[i].0 == node);
    }
    if node != m.node && m.up_nodes().contains(node) {
        let i = choose|i: int|
            0 <= i < m.members.len() && (#[trigger] m.members[i]).0 == node && m.members[i].1.state
                == MemberState::Up;
        lemma_filter_contains(m.members, is_up_peer(m.node), m.members[i]);
        let j = choose|j: int| 0 <= j < peers.len() && peers[j] == m.members[i];
        assert(nodes_of(peers)[j] == node);
    }
    lemma_first_some(m.members, is_up_at(node.addr));
    if let Some(e) = first(m.members, is_up_at(node.addr)) {
        let i = choose|i: int| 0 <= i < m.members.len() && m.members[i] == e;
        assert(m.members[i].0 == e.0);
        assert(m.up_nodes().contains(e.0));
        assert(is_up_at(node.addr)(m.members[i]));
    } else {
        assert forall|i: int| 0 <= i < m.members.len() && (#[trigger] m.members[i]).0.addr
            == node.addr implies m.members[i].1.state == MemberState::Down by {
            assert(!is_up_at(node.addr)(m.members[i]));
        }
    }
}

/// A sweep forgets the members Down for as long as the retention, keeps the rest in order, and lets
/// no watermark go.
pub proof fn a_sweep_forgets_the_long_dead(
    m: MembershipModel,
    retention: u128,
    at: u128,
    entry: (NodeId, MemberEntry),
)
    ensures
        ({
            let after = m.swept(retention, at);
            let dead = |e: (NodeId, MemberEntry)|
                e.1.state == MemberState::Down && (retention == 0 || e.1.changed_at + retention
                    <= at);
            &&& after.members == m.members.filter(|e: (NodeId, MemberEntry)| !dead(e))
            &&& after.members.contains(entry) <==> m.members.contains(entry) && !dead(entry)
            &&& after.down == m.down && after.node == m.node && after.cap == m.cap
        }),
{
    let dead = |e: (NodeId, MemberEntry)|
        e.1.state == MemberState::Down && (retention == 0 || e.1.changed_at + retention <= at);
    assert(is_kept(retention, at) =~= (|e: (NodeId, MemberEntry)| !dead(e)));
    lemma_filter_contains(m.members, is_kept(retention, at), entry);
}

/// The death of a node marks its entry, where that is Up, and no other; its watermark is there from
/// then on if the list has room for it.
pub proof fn a_death_is_recorded(m: MembershipModel, node: NodeId, at: u128)
    requires
        m.wf(),
    ensures
        ({
            let after = m.downed(node, at);
            &&& after.node == m.node && after.cap == m.cap
            &&& after.members.len() == m.members.len()
            &&& forall|i: int|
                0 <= i < m.members.len() ==> #[trigger] after.members[i] == (if m.members[i].0
                    == node && m.members[i].1.state == MemberState::Up {
                    (node, MemberEntry { state: MemberState::Down, changed_at: at })
                } else {
                    m.members[i]
                })
            &&& m.down.len() < m.cap ==> after.is_down(node)
        }),
{
    a_node_is_what_the_list_says(m, node);
    if m.is_up(node) {
        let i = key_index(m.members, node);
        assert forall|j: int| 0 <= j < m.members.len() && (#[trigger] m.members[j]).0
            == node implies j == i by {
            lemma_key_index(m.members, j);
        }
    }
    if m.down.len() < m.cap {
        lemma_raised(m, node);
    }
}

/// A node which joins is listed last, Up since then, unless it is listed or fenced already.
pub proof fn a_join_is_recorded(m: MembershipModel, node: NodeId, at: u128)
    requires
        m.wf(),
    ensures
        ({
            let after = m.added_up(node, at);
            let fenced = exists|i: int|
                0 <= i < m.down.len() && (#[trigger] m.down[i]).1.addr == node.addr
                    && m.down[i].1.incarnation.0 >= node.incarnation.0;
            let listed = exists|i: int|
                0 <= i < m.members.len() && (#[trigger] m.members[i]).0 == node;
            &&& fenced || listed ==> after == m
            &&& !fenced && !listed ==> after.members == m.members.push(
                (node, MemberEntry { state: MemberState::Up, changed_at: at }),
            )
            &&& after.down == m.down && after.node == m.node && after.cap == m.cap
        }),
{
    a_node_is_what_the_list_says(m, node);
}

/// Where the watermarks exceed their cap, it is one of the least incarnation which goes; all others
/// stay as they are.
pub proof fn the_oldest_watermark_goes(m: MembershipModel, node: NodeId)
    requires
        m.wf(),
        m.raises(node),
    ensures
        ({
            let after = m.raised(node);
            let full = m.down.len() == m.cap && forall|i: int|
                0 <= i < m.down.len() ==> (#[trigger] m.down[i]).0 != node.addr;
            let marks = m.down.push((node.addr, node));
            &&& after.members == m.members && after.node == m.node && after.cap == m.cap
            &&& !full ==> as_map(after.down) == as_map(m.down).insert(node.addr, node)
            &&& full ==> exists|gone: int|
                0 <= gone < marks.len() && after.down == #[trigger] marks.remove(gone) && forall|
                    i: int,
                |
                    0 <= i < marks.len() ==> marks[gone].1.incarnation.0 <= (
                    #[trigger] marks[i]).1.incarnation.0
        }),
{
    lemma_put(m.down, node.addr, node);
    let marks = put(m.down, node.addr, node);
    if marks.len() > m.cap {
        let gone = lemma_oldest_exists(marks);
        assert(is_oldest(marks, gone));
        assert(m.raised(node).down == marks.remove(gone));
    }
    if has_key(m.down, node.addr) {
        let i = key_index(m.down, node.addr);
        assert(m.down[i].0 == node.addr);
    }
}

/// A death heard of downs this node where it covers it. Any other is flushed where it is news, and
/// asks for the deaths of exactly the members Up which it covers.
pub proof fn a_death_heard_of_is_carried_out(merging: Merging, node: NodeId, other: NodeId, at: u128)
    requires
        merging.membership.wf(),
        !merging.stopped,
    ensures
        ({
            let after = merging.with(Member { node, state: MemberState::Down }, at);
            let m = merging.membership;
            let fenced = exists|i: int|
                0 <= i < m.down.len() && (#[trigger] m.down[i]).1.addr == node.addr
                    && m.down[i].1.incarnation.0 >= node.incarnation.0;
            let own = node.addr == m.node.addr && node.incarnation.0 >= m.node.incarnation.0;
            &&& !after.stopped
            &&& after.membership.members == m.members
            &&& after.merge.new_up == merging.merge.new_up
            &&& after.merge.self_down == (merging.merge.self_down || own)
            &&& after.merge.to_flush == (if fenced {
                merging.merge.to_flush
            } else {
                merging.merge.to_flush.push(node)
            })
            &&& own ==> after.merge.to_down == merging.merge.to_down
            &&& !own ==> (after.merge.to_down.contains(other) <==> merging.merge.to_down.contains(
                other,
            ) || (other.addr == node.addr && other.incarnation.0 <= node.incarnation.0 && exists|
                i: int,
            |
                0 <= i < m.members.len() && (#[trigger] m.members[i]).0 == other
                    && m.members[i].1.state == MemberState::Up))
        }),
{
    let m = merging.membership;
    a_node_is_what_the_list_says(m, node);
    let covered = m.members.filter(is_up_covered(node));
    lemma_contains_add(merging.merge.to_down, nodes_of(covered), other);
    if nodes_of(covered).contains(other) {
        let j = choose|j: int| 0 <= j < nodes_of(covered).len() && nodes_of(covered)[j] == other;
        assert(covered.contains(covered[j]));
        lemma_filter_contains(m.members, is_up_covered(node), covered[j]);
        let i = choose|i: int| 0 <= i < m.members.len() && m.members[i] == covered[j];
        assert(m.members[i].0 == other);
    }
    if other.addr == node.addr && other.incarnation.0 <= node.incarnation.0 && exists|i: int|
        0 <= i < m.members.len() && (#[trigger] m.members[i]).0 == other && m.members[i].1.state
            == MemberState::Up {
        let i = choose|i: int|
            0 <= i < m.members.len() && (#[trigger] m.members[i]).0 == other && m.members[i].1.state
                == MemberState::Up;
        lemma_filter_contains(m.members, is_up_covered(node), m.members[i]);
        let j = choose|j: int| 0 <= j < covered.len() && covered[j] == m.members[i];
        assert(nodes_of(covered)[j] == other);
    }
}

/// A member heard of is learned unless it is this node, listed or fenced. Where an incarnation is Up
/// at its address, the younger of the two stays: an older newcomer is to be downed unlisted, an older
/// incumbent makes way, and if that is this node the merge ends with it.
pub proof fn a_member_heard_of_is_learned(merging: Merging, node: NodeId, at: u128, up: int)
    requires
        merging.membership.wf(),
        !merging.stopped,
        0 <= up < merging.membership.members.len() ==> merging.membership.members[up].0.addr
            == node.addr && merging.membership.members[up].1.state == MemberState::Up,
        forall|i: int|
            0 <= i < merging.membership.members.len() && (i < up || up < 0) && (
            #[trigger] merging.membership.members[i]).0.addr == node.addr
                ==> merging.membership.members[i].1.state == MemberState::Down,
    ensures
        ({
            let after = merging.with(Member { node, state: MemberState::Up }, at);
            let m = merging.membership;
            let fenced = exists|i: int|
                0 <= i < m.down.len() && (#[trigger] m.down[i]).1.addr == node.addr
                    && m.down[i].1.incarnation.0 >= node.incarnation.0;
            let listed = exists|i: int|
                0 <= i < m.members.len() && (#[trigger] m.members[i]).0 == node;
            let news = node != m.node && !fenced && !listed;
            let incumbent = m.members[up].0;
            let taken = 0 <= up < m.members.len();
            let younger = taken && incumbent.incarnation.0 >= node.incarnation.0;
            let own = taken && !younger && incumbent == m.node;
            &&& !news ==> after == merging
            &&& after.membership.down == m.down
            &&& after.merge.to_flush == merging.merge.to_flush
            &&& news ==> after.stopped == own && after.merge.self_down == (merging.merge.self_down
                || own)
            &&& news && (younger || own) ==> after.membership.members == m.members
                && after.merge.new_up == merging.merge.new_up
            &&& news && !younger && !own ==> after.membership.members == m.members.push(
                (node, MemberEntry { state: MemberState::Up, changed_at: at }),
            ) && after.merge.new_up == merging.merge.new_up.push(node)
            &&& news ==> after.merge.to_down == (if younger {
                merging.merge.to_down.push(node)
            } else if taken && !own {
                merging.merge.to_down.push(incumbent)
            } else {
                merging.merge.to_down
            })
        }),
{
    let m = merging.membership;
    a_node_is_what_the_list_says(m, node);
    if 0 <= up < m.members.len() {
        assert(is_first(m.members, is_up_at(node.addr), up));
        lemma_first_found(m.members, is_up_at(node.addr), up);
    } else {
        lemma_first_some(m.members, is_up_at(node.addr));
    }
}

/// The members are listed in the order of their nodes, each entry once.
pub proof fn the_list_is_in_order(
    membership: &crate::cluster::membership::Membership,
    members: Vec<Member>,
    member: Member,
)
    requires
        membership@.wf(),
        call_ensures(crate::cluster::membership::Membership::members, (membership,), members),
    ensures
        members@.len() == membership@.members.len(),
        forall|i: int, j: int|
            0 <= i < j < members@.len() ==> !(#[trigger] members@[j]).node.before(
                (#[trigger] members@[i]).node,
            ),
        members@.contains(member) <==> exists|i: int|
            0 <= i < membership@.members.len() && (#[trigger] membership@.members[i]).0
                == member.node && membership@.members[i].1.state == member.state,
{
    let all = crate::cluster::membership::members_of(membership@.members);
    members@.to_multiset_ensures();
    all.to_multiset_ensures();
    assert(members@.contains(member) == (members@.to_multiset().count(member) > 0));
    assert(all.contains(member) == (all.to_multiset().count(member) > 0));
    assert forall|i: int, j: int| 0 <= i < j < members@.len() implies !(
    #[trigger] members@[j]).node.before((#[trigger] members@[i]).node) by {
        assert(!members@[j].before(members@[i]));
    }
    if all.contains(member) {
        let i = choose|i: int| 0 <= i < all.len() && all[i] == member;
        assert(membership@.members[i].0 == member.node);
    }
    if exists|i: int|
        0 <= i < membership@.members.len() && (#[trigger] membership@.members[i]).0 == member.node
            && membership@.members[i].1.state == member.state {
        let i = choose|i: int|
            0 <= i < membership@.members.len() && (#[trigger] membership@.members[i]).0
                == member.node && membership@.members[i].1.state == member.state;
        assert(all[i] == member);
    }
}

} // verus!
