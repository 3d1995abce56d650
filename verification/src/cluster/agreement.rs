//! Why gossip converges: what a node makes of a list is the least both sides can agree on. An
//! incarnation is dead if either side knows it to be, or if the two know two incarnations of one
//! address and it is not the younger one; it is Up if either side lists it Up and it is not dead. So
//! two nodes which exchange their lists agree, whatever each had heard before and in which order.

use vstd::prelude::*;

use crate::cluster::convergence::{has_room, lemma_put_get, lemma_raised};
use crate::cluster::endpoint::EndpointModel;
use crate::cluster::failure::FailureDetector;
use crate::cluster::membership::{is_unlisted, is_up_at, is_up_covered, members_of, nodes_of, Member,
    MemberEntry, MemberState, MembershipModel, Merging};
use crate::ids::NodeId;
use crate::seqs::{lemma_contains_add, lemma_contains_push, lemma_filter_contains, lemma_first_some};
use crate::table::{has_key, key_index, lemma_key_index, lemma_put};

verus! {

/// The node is listed Up.
pub open spec fn is_listed_up(members: Seq<Member>, node: NodeId) -> bool {
    members.contains(Member { node, state: MemberState::Up })
}

/// A listed death covers the node.
pub open spec fn is_listed_dead(members: Seq<Member>, node: NodeId) -> bool {
    exists|i: int|
        0 <= i < members.len() && (#[trigger] members[i]).state == MemberState::Down
            && members[i].node.fences(node)
}

/// A list names one incarnation Up at an address at most.
pub open spec fn is_single(members: Seq<Member>) -> bool {
    forall|n: NodeId, o: NodeId| #[trigger]
        is_listed_up(members, n) && #[trigger] is_listed_up(members, o) && n.addr == o.addr ==> n
            == o
}

/// A member list between two merges: this node is Up, no Up member is fenced or shares its address
/// with another, and whoever else is listed is fenced.
pub open spec fn is_settled(m: MembershipModel) -> bool {
    &&& m.wf()
    &&& m.is_up(m.node)
    &&& forall|n: NodeId| #[trigger] m.is_up(n) ==> !m.is_down(n)
    &&& forall|n: NodeId, o: NodeId| #[trigger]
        m.is_up(n) && #[trigger] m.is_up(o) && n.addr == o.addr ==> n == o
    &&& forall|n: NodeId| #[trigger] has_key(m.members, n) && !m.is_up(n) ==> m.is_down(n)
}

/// Either side lists the node Up.
pub open spec fn is_heard_up(m: MembershipModel, members: Seq<Member>, node: NodeId) -> bool {
    m.is_up(node) || is_listed_up(members, node)
}

/// Either side lists a younger incarnation Up at the node's address.
pub open spec fn has_younger(m: MembershipModel, members: Seq<Member>, node: NodeId) -> bool {
    exists|v: NodeId| #[trigger]
        is_heard_up(m, members, v) && v.addr == node.addr && node.incarnation.0 < v.incarnation.0
}

/// Either side knows of a death covering the node, or the two list two incarnations Up of which the
/// older one covers it.
pub open spec fn is_dead(m: MembershipModel, members: Seq<Member>, node: NodeId) -> bool {
    ||| m.is_down(node)
    ||| is_listed_dead(members, node)
    ||| exists|u: NodeId| #[trigger]
        is_heard_up(m, members, u) && has_younger(m, members, u) && u.fences(node)
}

proof fn lemma_push(members: Seq<Member>, last: Member, node: NodeId)
    ensures
        is_listed_up(members.push(last), node) == (is_listed_up(members, node) || last == (Member {
            node,
            state: MemberState::Up,
        })),
        is_listed_dead(members.push(last), node) == (is_listed_dead(members, node) || (last.state
            == MemberState::Down && last.node.fences(node))),
{
    let all = members.push(last);
    let up = Member { node, state: MemberState::Up };
    if is_listed_up(all, node) {
        let i = choose|i: int| 0 <= i < all.len() && all[i] == up;
        if i < members.len() {
            assert(members[i] == up);
        }
    }
    if is_listed_up(members, node) {
        let i = choose|i: int| 0 <= i < members.len() && members[i] == up;
        assert(all[i] == up);
    }
    assert(all[members.len() as int] == last);
    if is_listed_dead(all, node) {
        let i = choose|i: int|
            0 <= i < all.len() && (#[trigger] all[i]).state == MemberState::Down
                && all[i].node.fences(node);
        if i < members.len() {
            assert(members[i] == all[i]);
        }
    }
    if is_listed_dead(members, node) {
        let i = choose|i: int|
            0 <= i < members.len() && (#[trigger] members[i]).state == MemberState::Down
                && members[i].node.fences(node);
        assert(all[i] == members[i]);
    }
}

proof fn lemma_younger_push(m: MembershipModel, members: Seq<Member>, last: Member, node: NodeId)
    ensures
        is_heard_up(m, members, node) ==> is_heard_up(m, members.push(last), node),
        has_younger(m, members, node) ==> has_younger(m, members.push(last), node),
{
    lemma_push(members, last, node);
    if has_younger(m, members, node) {
        let v = choose|v: NodeId| #[trigger]
            is_heard_up(m, members, v) && v.addr == node.addr && node.incarnation.0
                < v.incarnation.0;
        lemma_push(members, last, v);
        assert(is_heard_up(m, members.push(last), v));
    }
}

/// The index of an Up member.
proof fn lemma_up_index(m: MembershipModel, node: NodeId) -> (i: int)
    requires
        m.wf(),
        m.is_up(node),
    ensures
        0 <= i < m.members.len(),
        m.members[i].0 == node,
        m.members[i].1.state == MemberState::Up,
{
    let i = key_index(m.members, node);
    lemma_key_index(m.members, i);
    i
}

proof fn lemma_covered(m: MembershipModel, fence: NodeId, node: NodeId)
    requires
        m.wf(),
    ensures
        nodes_of(m.members.filter(is_up_covered(fence))).contains(node) == (fence.fences(node)
            && m.is_up(node)),
{
    let p = is_up_covered(fence);
    let kept = m.members.filter(p);
    let nodes = nodes_of(kept);
    if nodes.contains(node) {
        let i = choose|i: int| 0 <= i < nodes.len() && nodes[i] == node;
        lemma_filter_contains(m.members, p, kept[i]);
        assert(kept.contains(kept[i]));
        let j = choose|j: int| 0 <= j < m.members.len() && m.members[j] == kept[i];
        lemma_key_index(m.members, j);
    }
    if fence.fences(node) && m.is_up(node) {
        let j = lemma_up_index(m, node);
        lemma_filter_contains(m.members, p, m.members[j]);
        assert(m.members.contains(m.members[j]));
        let i = choose|i: int| 0 <= i < kept.len() && kept[i] == m.members[j];
        assert(nodes[i] == node);
    }
}

proof fn lemma_up_member_at(m: MembershipModel, node: NodeId)
    requires
        m.wf(),
    ensures
        m.up_member_at(node.addr) matches Some(w) ==> w.addr == node.addr && m.is_up(w),
        m.up_member_at(node.addr) is None ==> forall|n: NodeId| #[trigger]
            m.is_up(n) ==> n.addr != node.addr,
{
    let p = is_up_at(node.addr);
    lemma_first_some(m.members, p);
    if let Some(w) = m.up_member_at(node.addr) {
        let e = crate::seqs::first(m.members, p)->0;
        let i = choose|i: int| 0 <= i < m.members.len() && m.members[i] == e;
        lemma_key_index(m.members, i);
    } else {
        assert forall|n: NodeId| #[trigger] m.is_up(n) implies n.addr != node.addr by {
            let i = lemma_up_index(m, n);
            if n.addr == node.addr {
                assert(p(m.members[i]));
            }
        }
    }
}

proof fn lemma_raised_down(m: MembershipModel, fence: NodeId, node: NodeId)
    requires
        m.wf(),
        has_room(m, fence),
    ensures
        m.raised(fence).is_down(node) == (m.is_down(node) || fence.fences(node)),
{
    lemma_raised(m, fence);
    lemma_put_get(m.down, fence.addr, fence, node.addr);
    if has_key(m.down, fence.addr) {
        let i = key_index(m.down, fence.addr);
        assert(m.down[i].1.addr == m.down[i].0);
    }
}

/// A fence which covers a node covers its predecessors.
proof fn lemma_down_covers(m: MembershipModel, node: NodeId, older: NodeId)
    requires
        m.is_down(node),
        node.fences(older),
    ensures
        m.is_down(older),
{
}

/// How far a merge has come: what the members heard of so far amount to, the deaths it asks for not
/// being carried out yet.
spec fn is_merged(a: MembershipModel, heard: Seq<Member>, s: Merging) -> bool {
    let m = s.membership;
    let t = s.merge.to_down;
    &&& m.wf()
    &&& m.node == a.node
    &&& m.cap == a.cap
    &&& m.down.len() <= a.down.len() + heard.len()
    &&& !m.is_down(a.node)
    &&& !t.contains(a.node)
    &&& forall|n: NodeId| #[trigger] m.is_down(n) == (a.is_down(n) || is_listed_dead(heard, n))
    &&& forall|n: NodeId| #[trigger] m.is_up(n) ==> is_heard_up(a, heard, n)
    &&& forall|n: NodeId| #[trigger] a.is_up(n) ==> m.is_up(n)
    &&& forall|n: NodeId| #[trigger] has_key(m.members, n) && !m.is_up(n) ==> a.is_down(n)
    &&& forall|n: NodeId| #[trigger]
        t.contains(n) ==> is_heard_up(a, heard, n) && (m.is_down(n) || has_younger(a, heard, n))
    &&& forall|n: NodeId| #[trigger] m.is_up(n) && m.is_down(n) ==> t.contains(n)
    &&& forall|n: NodeId| #[trigger]
        is_heard_up(a, heard, n) ==> m.is_up(n) || m.is_down(n) || t.contains(n)
    &&& forall|n: NodeId| #[trigger]
        is_heard_up(a, heard, n) && has_younger(a, heard, n) ==> t.contains(n) || m.is_down(n)
}

proof fn lemma_death_heard(a: MembershipModel, heard: Seq<Member>, s: Merging, fence: NodeId, at: u128)
    requires
        is_merged(a, heard, s),
        !s.stopped,
        s.membership.down.len() < s.membership.cap,
        !fence.fences(a.node),
    ensures
        is_merged(
            a,
            heard.push(Member { node: fence, state: MemberState::Down }),
            s.with(Member { node: fence, state: MemberState::Down }, at),
        ),
{
    let last = Member { node: fence, state: MemberState::Down };
    let all = heard.push(last);
    let next = s.with(last, at);
    let m = s.membership;
    let after = next.membership;
    let t = s.merge.to_down;
    let covered = nodes_of(after.members.filter(is_up_covered(fence)));
    let u = next.merge.to_down;
    assert(u == t + covered);
    lemma_raised(m, fence);
    lemma_raised_down(m, fence, a.node);
    lemma_contains_add(t, covered, a.node);
    lemma_covered(after, fence, a.node);
    assert(after.members == m.members);
    assert forall|n: NodeId| true implies #[trigger] after.is_down(n) == (a.is_down(n)
        || is_listed_dead(all, n)) by {
        lemma_push(heard, last, n);
        lemma_raised_down(m, fence, n);
        assert(m.is_down(n) == (a.is_down(n) || is_listed_dead(heard, n)));
    }
    assert forall|n: NodeId| #[trigger] after.is_up(n) implies is_heard_up(a, all, n) by {
        assert(m.is_up(n));
        lemma_younger_push(a, heard, last, n);
    }
    assert forall|n: NodeId| #[trigger] a.is_up(n) implies after.is_up(n) by {
        assert(m.is_up(n));
    }
    assert forall|n: NodeId| #[trigger]
        has_key(after.members, n) && !after.is_up(n) implies a.is_down(n) by {
        assert(has_key(m.members, n) && !m.is_up(n));
    }
    assert forall|n: NodeId| #[trigger] u.contains(n) implies is_heard_up(a, all, n) && (
    after.is_down(n) || has_younger(a, all, n)) by {
        lemma_contains_add(t, covered, n);
        lemma_covered(after, fence, n);
        lemma_raised_down(m, fence, n);
        lemma_younger_push(a, heard, last, n);
        if t.contains(n) {
        } else {
            assert(m.is_up(n));
        }
    }
    assert forall|n: NodeId| #[trigger] after.is_up(n) && after.is_down(n) implies u.contains(
        n,
    ) by {
        lemma_contains_add(t, covered, n);
        lemma_covered(after, fence, n);
        lemma_raised_down(m, fence, n);
        assert(m.is_up(n));
    }
    assert forall|n: NodeId| #[trigger] is_heard_up(a, all, n) implies after.is_up(n)
        || after.is_down(n) || u.contains(n) by {
        lemma_push(heard, last, n);
        lemma_contains_add(t, covered, n);
        lemma_raised_down(m, fence, n);
        assert(is_heard_up(a, heard, n));
        assert(m.is_up(n) == after.is_up(n));
    }
    assert forall|n: NodeId| #[trigger]
        is_heard_up(a, all, n) && has_younger(a, all, n) implies u.contains(n) || after.is_down(
        n,
    ) by {
        lemma_push(heard, last, n);
        lemma_contains_add(t, covered, n);
        lemma_raised_down(m, fence, n);
        let v = choose|v: NodeId| #[trigger]
            is_heard_up(a, all, v) && v.addr == n.addr && n.incarnation.0 < v.incarnation.0;
        lemma_push(heard, last, v);
        assert(is_heard_up(a, heard, v));
        assert(is_heard_up(a, heard, n));
        assert(has_younger(a, heard, n));
    }
}

/// An Up member which is nothing new to the list.
proof fn lemma_known_heard(a: MembershipModel, heard: Seq<Member>, s: Merging, node: NodeId, at: u128)
    requires
        is_settled(a),
        is_merged(a, heard, s),
        !s.stopped,
        node == a.node || !s.membership.admits(node),
    ensures
        is_merged(
            a,
            heard.push(Member { node, state: MemberState::Up }),
            s.with(Member { node, state: MemberState::Up }, at),
        ),
{
    let last = Member { node, state: MemberState::Up };
    let all = heard.push(last);
    let next = s.with(last, at);
    let m = s.membership;
    let t = s.merge.to_down;
    assert(next == s);
    assert(a.is_up(a.node));
    if has_key(m.members, node) && !m.is_up(node) {
        assert(a.is_down(node));
    }
    assert(m.is_down(node) == (a.is_down(node) || is_listed_dead(heard, node)));
    assert(m.is_up(node) || m.is_down(node));
    assert forall|n: NodeId| true implies #[trigger] m.is_down(n) == (a.is_down(n)
        || is_listed_dead(all, n)) by {
        lemma_push(heard, last, n);
    }
    assert forall|n: NodeId| #[trigger] m.is_up(n) implies is_heard_up(a, all, n) by {
        lemma_younger_push(a, heard, last, n);
    }
    assert forall|n: NodeId| #[trigger] t.contains(n) implies is_heard_up(a, all, n) && (m.is_down(
        n,
    ) || has_younger(a, all, n)) by {
        lemma_younger_push(a, heard, last, n);
    }
    assert forall|n: NodeId| #[trigger] is_heard_up(a, all, n) implies m.is_up(n) || m.is_down(n)
        || t.contains(n) by {
        lemma_push(heard, last, n);
        if n != node {
            assert(is_heard_up(a, heard, n));
        }
    }
    assert forall|n: NodeId| #[trigger]
        is_heard_up(a, all, n) && has_younger(a, all, n) implies t.contains(n) || m.is_down(n) by {
        lemma_push(heard, last, n);
        let v = choose|v: NodeId| #[trigger]
            is_heard_up(a, all, v) && v.addr == n.addr && n.incarnation.0 < v.incarnation.0;
        lemma_push(heard, last, v);
        if is_heard_up(a, heard, n) && is_heard_up(a, heard, v) {
            assert(has_younger(a, heard, n));
        } else if !is_heard_up(a, heard, node) {
            assert(!m.is_up(node));
            assert(m.is_down(node));
            if v == node {
                lemma_down_covers(m, node, n);
            }
        }
    }
}

/// An Up member which is news: alone at its address, older than the one there, or younger.
proof fn lemma_news_heard(a: MembershipModel, heard: Seq<Member>, s: Merging, node: NodeId, at: u128)
    requires
        is_settled(a),
        is_merged(a, heard, s),
        is_single(heard.push(Member { node, state: MemberState::Up })),
        !s.stopped,
        !s.with(Member { node, state: MemberState::Up }, at).stopped,
        node != a.node,
        s.membership.admits(node),
    ensures
        is_merged(
            a,
            heard.push(Member { node, state: MemberState::Up }),
            s.with(Member { node, state: MemberState::Up }, at),
        ),
{
    let last = Member { node, state: MemberState::Up };
    let all = heard.push(last);
    let next = s.with(last, at);
    let m = s.membership;
    let after = next.membership;
    let t = s.merge.to_down;
    let u = next.merge.to_down;
    let entry = MemberEntry { state: MemberState::Up, changed_at: at };
    lemma_up_member_at(m, node);
    lemma_put(m.members, node, entry);
    lemma_push(heard, last, node);
    assert(!m.is_up(node) && !a.is_up(node));
    // Whoever else is heard of at the address is the one Up there, listed from the start.
    assert forall|n: NodeId| #[trigger]
        is_heard_up(a, all, n) && n.addr == node.addr && n != node implies a.is_up(n)
        && m.up_member_at(node.addr) == Some(n) by {
        if is_listed_up(all, n) {
            assert(is_listed_up(all, node));
        }
        assert(a.is_up(n));
        assert(m.is_up(n));
        let w = m.up_member_at(node.addr)->0;
        assert(m.is_up(w));
        assert(is_heard_up(a, heard, w));
        lemma_push(heard, last, w);
        if is_listed_up(heard, w) {
            assert(is_listed_up(all, w) && is_listed_up(all, node));
        }
        assert(a.is_up(w));
    }
    if let Some(w) = m.up_member_at(node.addr) {
        assert(is_heard_up(a, heard, w));
        lemma_younger_push(a, heard, last, w);
        assert(w != node);
        assert(a.is_up(w));
        assert(w.incarnation.0 != node.incarnation.0);
    }
    let added = match m.up_member_at(node.addr) {
        None => true,
        Some(w) => w.incarnation.0 < node.incarnation.0,
    };
    assert forall|n: NodeId| true implies #[trigger] u.contains(n) == (t.contains(n) || (
    m.up_member_at(node.addr) matches Some(w) && n == (if added {
        w
    } else {
        node
    }))) by {
        if let Some(w) = m.up_member_at(node.addr) {
            lemma_contains_push(t, w, n);
            lemma_contains_push(t, node, n);
        }
    }
    assert forall|n: NodeId| true implies #[trigger] after.is_up(n) == (m.is_up(n) || (added && n
        == node)) by {
        lemma_put_get(m.members, node, entry, n);
    }
    assert(after.down == m.down);
    assert forall|n: NodeId| true implies #[trigger] after.is_down(n) == (a.is_down(n)
        || is_listed_dead(all, n)) by {
        lemma_push(heard, last, n);
        assert(m.is_down(n) == (a.is_down(n) || is_listed_dead(heard, n)));
    }
    assert forall|n: NodeId| #[trigger] after.is_up(n) implies is_heard_up(a, all, n) by {
        lemma_younger_push(a, heard, last, n);
    }
    assert forall|n: NodeId| #[trigger] a.is_up(n) implies after.is_up(n) by {
        assert(m.is_up(n));
    }
    assert forall|n: NodeId| #[trigger]
        has_key(after.members, n) && !after.is_up(n) implies a.is_down(n) by {
        lemma_put_get(m.members, node, entry, n);
        assert(has_key(m.members, n) && !m.is_up(n));
    }
    assert forall|n: NodeId| #[trigger] u.contains(n) implies is_heard_up(a, all, n) && (
    after.is_down(n) || has_younger(a, all, n)) by {
        lemma_younger_push(a, heard, last, n);
        assert(after.is_down(n) == m.is_down(n));
        if !t.contains(n) {
            let w = m.up_member_at(node.addr)->0;
            assert(is_heard_up(a, all, w));
            assert(is_heard_up(a, all, node));
            assert(has_younger(a, all, n));
        }
    }
    assert forall|n: NodeId| #[trigger] after.is_up(n) && after.is_down(n) implies u.contains(
        n,
    ) by {
        assert(after.is_down(n) == m.is_down(n));
        assert(m.is_up(n));
    }
    assert forall|n: NodeId| #[trigger] is_heard_up(a, all, n) implies after.is_up(n)
        || after.is_down(n) || u.contains(n) by {
        lemma_push(heard, last, n);
        assert(after.is_down(n) == m.is_down(n));
        if n == node {
            assert(added || u.contains(node));
        } else {
            assert(is_heard_up(a, heard, n));
        }
    }
    assert forall|n: NodeId| #[trigger]
        is_heard_up(a, all, n) && has_younger(a, all, n) implies u.contains(n) || after.is_down(
        n,
    ) by {
        lemma_push(heard, last, n);
        assert(after.is_down(n) == m.is_down(n));
        let v = choose|v: NodeId| #[trigger]
            is_heard_up(a, all, v) && v.addr == n.addr && n.incarnation.0 < v.incarnation.0;
        lemma_push(heard, last, v);
        if n != node && v != node {
            assert(is_heard_up(a, heard, n));
            assert(is_heard_up(a, heard, v));
            assert(has_younger(a, heard, n));
        }
    }
}

/// What a whole list amounts to, the deaths it asks for not being carried out yet.
proof fn lemma_merged(a: MembershipModel, members: Seq<Member>, at: u128)
    requires
        is_settled(a),
        is_single(members),
        a.down.len() + members.len() <= a.cap,
        !Merging::start(a).with_all(members, at).stopped,
        !Merging::start(a).with_all(members, at).merge.self_down,
    ensures
        is_merged(a, members, Merging::start(a).with_all(members, at)),
    decreases members.len(),
{
    if members.len() == 0 {
        let s = Merging::start(a);
        assert forall|n: NodeId| #[trigger]
            is_heard_up(a, members, n) && has_younger(a, members, n) implies false by {
            let v = choose|v: NodeId| #[trigger]
                is_heard_up(a, members, v) && v.addr == n.addr && n.incarnation.0
                    < v.incarnation.0;
            assert(a.is_up(n) && a.is_up(v));
        }
        assert(is_merged(a, members, s));
    } else {
        let heard = members.drop_last();
        let last = members.last();
        let s = Merging::start(a).with_all(heard, at);
        assert(heard.push(last) =~= members);
        assert(!s.stopped);
        assert(!s.merge.self_down) by {
            assert(s.with(last, at).merge.self_down == false);
        }
        assert forall|n: NodeId, o: NodeId| #[trigger]
            is_listed_up(heard, n) && #[trigger] is_listed_up(heard, o) && n.addr
                == o.addr implies n == o by {
            lemma_push(heard, last, n);
            lemma_push(heard, last, o);
            assert(is_listed_up(members, n) && is_listed_up(members, o));
        }
        lemma_merged(a, heard, at);
        match last.state {
            MemberState::Down => {
                assert(last == (Member { node: last.node, state: MemberState::Down }));
                lemma_death_heard(a, heard, s, last.node, at);
            },
            MemberState::Up => {
                assert(last == (Member { node: last.node, state: MemberState::Up }));
                if last.node == a.node || !s.membership.admits(last.node) {
                    lemma_known_heard(a, heard, s, last.node, at);
                } else {
                    lemma_news_heard(a, heard, s, last.node, at);
                }
            },
        }
    }
}

/// A list after these deaths, in order.
pub open spec fn downed_all(m: MembershipModel, nodes: Seq<NodeId>, at: u128) -> MembershipModel
    decreases nodes.len(),
{
    if nodes.len() == 0 {
        m
    } else {
        downed_all(m, nodes.drop_last(), at).downed(nodes.last(), at)
    }
}

/// One of the nodes covers the other.
pub open spec fn is_covered(nodes: Seq<NodeId>, node: NodeId) -> bool {
    exists|t: NodeId| #[trigger] nodes.contains(t) && t.fences(node)
}

proof fn lemma_downed_all(m: MembershipModel, nodes: Seq<NodeId>, node: NodeId, at: u128)
    requires
        m.wf(),
        m.down.len() + nodes.len() <= m.cap,
    ensures
        ({
            let d = downed_all(m, nodes, at);
            &&& d.wf()
            &&& d.node == m.node
            &&& d.cap == m.cap
            &&& d.down.len() <= m.down.len() + nodes.len()
            &&& d.is_down(node) == (m.is_down(node) || is_covered(nodes, node))
            &&& d.is_up(node) == (m.is_up(node) && !nodes.contains(node))
            &&& has_key(d.members, node) == has_key(m.members, node)
        }),
    decreases nodes.len(),
{
    if nodes.len() > 0 {
        let rest = nodes.drop_last();
        let last = nodes.last();
        let before = downed_all(m, rest, at);
        lemma_downed_all(m, rest, node, at);
        lemma_downed_all(m, rest, last, at);
        lemma_raised(before, last);
        lemma_raised_down(before, last, node);
        let entry = MemberEntry { state: MemberState::Down, changed_at: at };
        lemma_put(before.members, last, entry);
        lemma_put_get(before.members, last, entry, node);
        assert(rest.push(last) =~= nodes);
        lemma_contains_push(rest, last, node);
        if is_covered(nodes, node) {
            let t = choose|t: NodeId| #[trigger] nodes.contains(t) && t.fences(node);
            lemma_contains_push(rest, last, t);
            if t != last {
                assert(rest.contains(t));
            }
        }
        if is_covered(rest, node) {
            let t = choose|t: NodeId| #[trigger] rest.contains(t) && t.fences(node);
            lemma_contains_push(rest, last, t);
            assert(nodes.contains(t));
        }
        lemma_contains_push(rest, last, last);
        assert(nodes.contains(last));
    } else {
        assert(!is_covered(nodes, node));
    }
}

/// A list after the gossip, the deaths it asks for carried out.
pub open spec fn taken(m: MembershipModel, members: Seq<Member>, at: u128) -> MembershipModel {
    let merging = Merging::start(m).with_all(members, at);
    downed_all(merging.membership, merging.merge.to_down, at)
}

/// The gossip does not end this node, and the watermarks it leaves fit the cap.
pub open spec fn is_bearable(m: MembershipModel, members: Seq<Member>, at: u128) -> bool {
    let merging = Merging::start(m).with_all(members, at);
    &&& !merging.stopped
    &&& !merging.merge.self_down
    &&& m.down.len() + members.len() + merging.merge.to_down.len() <= m.cap
}

/// What a node makes of a list: dead is who either side knows to be dead or to be succeeded, and Up
/// is who either side lists Up and is not dead.
pub proof fn gossip_is_a_join(m: MembershipModel, members: Seq<Member>, node: NodeId, at: u128)
    requires
        is_settled(m),
        is_single(members),
        is_bearable(m, members, at),
    ensures
        taken(m, members, at).is_down(node) == is_dead(m, members, node),
        taken(m, members, at).is_up(node) == (is_heard_up(m, members, node) && !is_dead(
            m,
            members,
            node,
        )),
{
    let s = Merging::start(m).with_all(members, at);
    let t = s.merge.to_down;
    lemma_merged(m, members, at);
    lemma_downed_all(s.membership, t, node, at);
    let after = taken(m, members, at);
    assert(s.membership.is_down(node) == (m.is_down(node) || is_listed_dead(members, node)));
    if is_covered(t, node) {
        let u = choose|u: NodeId| #[trigger] t.contains(u) && u.fences(node);
        assert(is_heard_up(m, members, u));
        if s.membership.is_down(u) {
            lemma_down_covers(s.membership, u, node);
        } else {
            assert(has_younger(m, members, u));
        }
    }
    if exists|u: NodeId| #[trigger]
        is_heard_up(m, members, u) && has_younger(m, members, u) && u.fences(node) {
        let u = choose|u: NodeId| #[trigger]
            is_heard_up(m, members, u) && has_younger(m, members, u) && u.fences(node);
        if t.contains(u) {
            assert(is_covered(t, node));
        } else {
            lemma_down_covers(s.membership, u, node);
        }
    }
    assert(after.is_down(node) == is_dead(m, members, node));
    if t.contains(node) {
        assert(node.fences(node));
        assert(is_covered(t, node));
    }
    if s.membership.is_up(node) && !t.contains(node) {
        assert(is_heard_up(m, members, node));
        assert(!s.membership.is_down(node));
        if is_covered(t, node) {
            let u = choose|u: NodeId| #[trigger] t.contains(u) && u.fences(node);
            assert(is_heard_up(m, members, u));
            assert(u != node);
            assert(has_younger(m, members, node));
        }
    }
    if is_heard_up(m, members, node) && !after.is_down(node) {
        assert(s.membership.is_up(node) || s.membership.is_down(node) || t.contains(node));
    }
}

/// A settled list is settled again once it has taken gossip.
pub proof fn gossip_leaves_a_settled_list(m: MembershipModel, members: Seq<Member>, at: u128)
    requires
        is_settled(m),
        is_single(members),
        is_bearable(m, members, at),
    ensures
        is_settled(taken(m, members, at)),
{
    let s = Merging::start(m).with_all(members, at);
    let after = taken(m, members, at);
    lemma_merged(m, members, at);
    lemma_downed_all(s.membership, s.merge.to_down, m.node, at);
    assert(s.membership.is_up(m.node));
    assert forall|n: NodeId| #[trigger] after.is_up(n) implies !after.is_down(n) by {
        gossip_is_a_join(m, members, n, at);
    }
    assert forall|n: NodeId, o: NodeId| #[trigger]
        after.is_up(n) && #[trigger] after.is_up(o) && n.addr == o.addr implies n == o by {
        gossip_is_a_join(m, members, n, at);
        gossip_is_a_join(m, members, o, at);
        if n.incarnation.0 < o.incarnation.0 {
            assert(has_younger(m, members, n));
            assert(n.fences(n));
        } else if o.incarnation.0 < n.incarnation.0 {
            assert(has_younger(m, members, o));
            assert(o.fences(o));
        }
    }
    assert forall|n: NodeId| #[trigger]
        has_key(after.members, n) && !after.is_up(n) implies after.is_down(n) by {
        lemma_downed_all(s.membership, s.merge.to_down, n, at);
        if s.membership.is_up(n) {
            assert(s.merge.to_down.contains(n) && n.fences(n));
            assert(is_covered(s.merge.to_down, n));
        } else {
            assert(m.is_down(n));
            assert(s.membership.is_down(n) == (m.is_down(n) || is_listed_dead(members, n)));
        }
    }
}

/// What two lists amount to, taken one after the other.
proof fn lemma_two_lists(
    m: MembershipModel,
    first: Seq<Member>,
    second: Seq<Member>,
    node: NodeId,
    at: u128,
    later: u128,
)
    requires
        is_settled(m),
        is_single(first),
        is_single(second),
        is_bearable(m, first, at),
        is_bearable(taken(m, first, at), second, later),
    ensures
        ({
            let after = taken(taken(m, first, at), second, later);
            &&& after.is_down(node) == is_dead(m, first + second, node)
            &&& after.is_up(node) == (is_heard_up(m, first + second, node) && !is_dead(
                m,
                first + second,
                node,
            ))
        }),
{
    let between = taken(m, first, at);
    let both = first + second;
    gossip_leaves_a_settled_list(m, first, at);
    gossip_is_a_join(between, second, node, later);
    assert forall|n: NodeId| true implies #[trigger] is_heard_up(m, both, n) == (is_heard_up(
        m,
        first,
        n,
    ) || is_listed_up(second, n)) by {
        lemma_both(first, second, n);
    }
    // Who is heard of but not Up in between is dead by then.
    assert forall|n: NodeId| #[trigger] is_heard_up(m, both, n) implies is_heard_up(
        between,
        second,
        n,
    ) || between.is_down(n) by {
        gossip_is_a_join(m, first, n, at);
    }
    assert forall|n: NodeId| #[trigger] is_heard_up(between, second, n) implies is_heard_up(
        m,
        both,
        n,
    ) by {
        gossip_is_a_join(m, first, n, at);
        assert(is_heard_up(m, both, n) == (is_heard_up(m, first, n) || is_listed_up(second, n)));
    }
    gossip_is_a_join(m, first, node, at);
    lemma_both(first, second, node);
    if is_dead(between, second, node) {
        lemma_dead_of_two(m, first, second, between, node);
    }
    if is_dead(m, both, node) && !m.is_down(node) && !is_listed_dead(both, node) {
        let u = choose|u: NodeId| #[trigger]
            is_heard_up(m, both, u) && has_younger(m, both, u) && u.fences(node);
        let v = choose|v: NodeId| #[trigger]
            is_heard_up(m, both, v) && v.addr == u.addr && u.incarnation.0 < v.incarnation.0;
        if between.is_down(u) {
            lemma_down_covers(between, u, node);
        } else if between.is_down(v) {
            lemma_down_covers(between, v, node);
        } else {
            assert(is_heard_up(between, second, u));
            assert(is_heard_up(between, second, v));
            assert(has_younger(between, second, u));
        }
    }
    if is_heard_up(m, both, node) && !is_dead(m, both, node) {
        assert(is_heard_up(between, second, node) || between.is_down(node));
    }
}

proof fn lemma_both(first: Seq<Member>, second: Seq<Member>, node: NodeId)
    ensures
        is_listed_up(first + second, node) == (is_listed_up(first, node) || is_listed_up(
            second,
            node,
        )),
        is_listed_dead(first + second, node) == (is_listed_dead(first, node) || is_listed_dead(
            second,
            node,
        )),
    decreases second.len(),
{
    if second.len() == 0 {
        assert(first + second =~= first);
    } else {
        let rest = second.drop_last();
        let last = second.last();
        lemma_both(first, rest, node);
        assert(rest.push(last) =~= second);
        assert((first + rest).push(last) =~= first + second);
        lemma_push(rest, last, node);
        lemma_push(first + rest, last, node);
    }
}

/// Who is dead to the second list is dead to both.
proof fn lemma_dead_of_two(
    m: MembershipModel,
    first: Seq<Member>,
    second: Seq<Member>,
    between: MembershipModel,
    node: NodeId,
)
    requires
        is_dead(between, second, node),
        between.is_down(node) == is_dead(m, first, node),
        forall|n: NodeId| #[trigger]
            is_heard_up(between, second, n) ==> is_heard_up(m, first + second, n),
    ensures
        is_dead(m, first + second, node),
{
    let both = first + second;
    lemma_both(first, second, node);
    if between.is_down(node) {
        if !m.is_down(node) && !is_listed_dead(first, node) {
            let u = choose|u: NodeId| #[trigger]
                is_heard_up(m, first, u) && has_younger(m, first, u) && u.fences(node);
            let v = choose|v: NodeId| #[trigger]
                is_heard_up(m, first, v) && v.addr == u.addr && u.incarnation.0 < v.incarnation.0;
            lemma_both(first, second, u);
            lemma_both(first, second, v);
            assert(is_heard_up(m, both, v));
            assert(is_heard_up(m, both, u) && has_younger(m, both, u));
        }
    } else if !is_listed_dead(second, node) {
        let u = choose|u: NodeId| #[trigger]
            is_heard_up(between, second, u) && has_younger(between, second, u) && u.fences(node);
        let v = choose|v: NodeId| #[trigger]
            is_heard_up(between, second, v) && v.addr == u.addr && u.incarnation.0
                < v.incarnation.0;
        assert(is_heard_up(m, both, v));
        assert(is_heard_up(m, both, u) && has_younger(m, both, u));
    }
}

/// The order in which two lists come does not matter.
pub proof fn gossip_may_come_in_any_order(
    m: MembershipModel,
    one: Seq<Member>,
    other: Seq<Member>,
    node: NodeId,
    at: u128,
    later: u128,
)
    requires
        is_settled(m),
        is_single(one),
        is_single(other),
        is_bearable(m, one, at),
        is_bearable(taken(m, one, at), other, later),
        is_bearable(m, other, at),
        is_bearable(taken(m, other, at), one, later),
    ensures
        taken(taken(m, one, at), other, later).is_down(node) == taken(
            taken(m, other, at),
            one,
            later,
        ).is_down(node),
        taken(taken(m, one, at), other, later).is_up(node) == taken(
            taken(m, other, at),
            one,
            later,
        ).is_up(node),
{
    lemma_two_lists(m, one, other, node, at, later);
    lemma_two_lists(m, other, one, node, at, later);
    lemma_swapped(m, one, other, node);
    lemma_swapped(m, other, one, node);
    lemma_both(one, other, node);
    lemma_both(other, one, node);
}

proof fn lemma_swapped(m: MembershipModel, one: Seq<Member>, other: Seq<Member>, node: NodeId)
    ensures
        is_dead(m, one + other, node) ==> is_dead(m, other + one, node),
{
    let both = one + other;
    let swapped = other + one;
    lemma_both(one, other, node);
    lemma_both(other, one, node);
    if is_dead(m, both, node) && !m.is_down(node) && !is_listed_dead(both, node) {
        let u = choose|u: NodeId| #[trigger]
            is_heard_up(m, both, u) && has_younger(m, both, u) && u.fences(node);
        let v = choose|v: NodeId| #[trigger]
            is_heard_up(m, both, v) && v.addr == u.addr && u.incarnation.0 < v.incarnation.0;
        lemma_both(one, other, u);
        lemma_both(other, one, u);
        lemma_both(one, other, v);
        lemma_both(other, one, v);
        assert(is_heard_up(m, swapped, v));
        assert(is_heard_up(m, swapped, u) && has_younger(m, swapped, u));
    }
}

/// What a connection being set up carries of a settled list is the list itself.
pub proof fn a_snapshot_tells_the_list(m: MembershipModel, node: NodeId)
    requires
        is_settled(m),
    ensures
        is_listed_up(m.handshake_snapshot(), node) == m.is_up(node),
        is_listed_dead(m.handshake_snapshot(), node) == m.is_down(node),
{
    let listed = members_of(m.members);
    let unlisted = m.down.filter(is_unlisted(m.members));
    let marks = unlisted.map_values(
        |e: (crate::addr::SocketAddr, NodeId)| Member { node: e.1, state: MemberState::Down },
    );
    let all = m.handshake_snapshot();
    assert(all == listed + marks);
    let up = Member { node, state: MemberState::Up };
    if is_listed_up(all, node) {
        let i = choose|i: int| 0 <= i < all.len() && all[i] == up;
        if i < listed.len() {
            lemma_key_index(m.members, i);
        } else {
            assert(all[i] == marks[i - listed.len()]);
        }
    }
    if m.is_up(node) {
        let i = lemma_up_index(m, node);
        assert(all[i] == up);
    }
    if is_listed_dead(all, node) {
        let i = choose|i: int|
            0 <= i < all.len() && (#[trigger] all[i]).state == MemberState::Down
                && all[i].node.fences(node);
        if i < listed.len() {
            lemma_key_index(m.members, i);
            let dead = m.members[i].0;
            assert(has_key(m.members, dead) && !m.is_up(dead));
            lemma_down_covers(m, dead, node);
        } else {
            let e = unlisted[i - listed.len()];
            assert(all[i] == marks[i - listed.len()]);
            lemma_filter_contains(m.down, is_unlisted(m.members), e);
            assert(unlisted.contains(e));
            let j = choose|j: int| 0 <= j < m.down.len() && m.down[j] == e;
            lemma_key_index(m.down, j);
            assert(m.down[j].1.addr == m.down[j].0);
        }
    }
    if m.is_down(node) {
        let j = key_index(m.down, node.addr);
        lemma_key_index(m.down, j);
        let mark = m.down[j].1;
        if has_key(m.members, mark) {
            let i = key_index(m.members, mark);
            lemma_key_index(m.members, i);
            if m.is_up(mark) {
                assert(m.down[j].1.addr == m.down[j].0);
                assert(m.is_down(mark));
            }
            assert(all[i] == listed[i]);
            assert(all[i].state == MemberState::Down);
        } else {
            lemma_filter_contains(m.down, is_unlisted(m.members), m.down[j]);
            assert(m.down.contains(m.down[j]));
            let i = choose|i: int| 0 <= i < unlisted.len() && unlisted[i] == m.down[j];
            assert(all[listed.len() + i] == marks[i]);
        }
    }
}

/// Two nodes which exchange their lists agree on who is dead and who is Up, whatever each had heard
/// before.
pub proof fn exchanging_lists_makes_nodes_agree(
    a: MembershipModel,
    b: MembershipModel,
    node: NodeId,
    at: u128,
    later: u128,
)
    requires
        is_settled(a),
        is_settled(b),
        is_bearable(a, b.handshake_snapshot(), at),
        is_bearable(b, a.handshake_snapshot(), later),
    ensures
        taken(a, b.handshake_snapshot(), at).is_down(node) == taken(
            b,
            a.handshake_snapshot(),
            later,
        ).is_down(node),
        taken(a, b.handshake_snapshot(), at).is_up(node) == taken(
            b,
            a.handshake_snapshot(),
            later,
        ).is_up(node),
{
    lemma_snapshot_is_single(a);
    lemma_snapshot_is_single(b);
    gossip_is_a_join(a, b.handshake_snapshot(), node, at);
    gossip_is_a_join(b, a.handshake_snapshot(), node, later);
    lemma_symmetric(a, b, node);
    lemma_symmetric(b, a, node);
    a_snapshot_tells_the_list(a, node);
    a_snapshot_tells_the_list(b, node);
}

proof fn lemma_snapshot_is_single(m: MembershipModel)
    requires
        is_settled(m),
    ensures
        is_single(m.handshake_snapshot()),
{
    let all = m.handshake_snapshot();
    assert forall|n: NodeId, o: NodeId| #[trigger]
        is_listed_up(all, n) && #[trigger] is_listed_up(all, o) && n.addr == o.addr implies n
        == o by {
        a_snapshot_tells_the_list(m, n);
        a_snapshot_tells_the_list(m, o);
    }
}

proof fn lemma_symmetric(a: MembershipModel, b: MembershipModel, node: NodeId)
    requires
        is_settled(a),
        is_settled(b),
    ensures
        is_dead(a, b.handshake_snapshot(), node) ==> is_dead(b, a.handshake_snapshot(), node),
{
    let from_b = b.handshake_snapshot();
    let from_a = a.handshake_snapshot();
    a_snapshot_tells_the_list(a, node);
    a_snapshot_tells_the_list(b, node);
    if exists|u: NodeId| #[trigger]
        is_heard_up(a, from_b, u) && has_younger(a, from_b, u) && u.fences(node) {
        let u = choose|u: NodeId| #[trigger]
            is_heard_up(a, from_b, u) && has_younger(a, from_b, u) && u.fences(node);
        let v = choose|v: NodeId| #[trigger]
            is_heard_up(a, from_b, v) && v.addr == u.addr && u.incarnation.0 < v.incarnation.0;
        a_snapshot_tells_the_list(a, u);
        a_snapshot_tells_the_list(b, u);
        a_snapshot_tells_the_list(a, v);
        a_snapshot_tells_the_list(b, v);
        assert(is_heard_up(b, from_a, u));
        assert(is_heard_up(b, from_a, v));
        assert(has_younger(b, from_a, u));
    }
}

proof fn lemma_dead_all_members<H, S, R, D: FailureDetector>(
    endpoint: EndpointModel<H, S, R, D>,
    peers: Seq<NodeId>,
    at: u128,
)
    ensures
        endpoint.dead_all(peers, at).membership == downed_all(endpoint.membership, peers, at),
    decreases peers.len(),
{
    if peers.len() > 0 {
        lemma_dead_all_members(endpoint, peers.drop_last(), at);
    }
}

proof fn lemma_flushed_all_members<H, S, R, D: FailureDetector>(
    endpoint: EndpointModel<H, S, R, D>,
    fences: Seq<NodeId>,
)
    ensures
        endpoint.flushed_all(fences).membership == endpoint.membership,
    decreases fences.len(),
{
    if fences.len() > 0 {
        lemma_flushed_all_members(endpoint, fences.drop_last());
    }
}

proof fn lemma_armed_all_members<H, S, R, D: FailureDetector>(
    endpoint: EndpointModel<H, S, R, D>,
    peers: Seq<NodeId>,
    at: u128,
)
    ensures
        endpoint.armed_all(peers, at).membership == endpoint.membership,
    decreases peers.len(),
{
    if peers.len() > 0 {
        lemma_armed_all_members(endpoint, peers.drop_last(), at);
    }
}

/// An endpoint which takes gossip and survives it is left with that list.
pub proof fn an_endpoint_takes_gossip<H, S, R, D: FailureDetector>(
    endpoint: EndpointModel<H, S, R, D>,
    members: Seq<Member>,
    at: u128,
)
    requires
        !Merging::start(endpoint.membership).with_all(members, at).merge.self_down,
    ensures
        endpoint.gossiped(members, at).membership == taken(endpoint.membership, members, at),
{
    let merging = Merging::start(endpoint.membership).with_all(members, at);
    let merge = merging.merge;
    let merged = EndpointModel { membership: merging.membership, ..endpoint };
    let armed = merged.armed_all(merge.new_up, at);
    lemma_armed_all_members(merged, merge.new_up, at);
    lemma_dead_all_members(armed, merge.to_down, at);
    lemma_flushed_all_members(
        armed.dead_all(merge.to_down, at),
        merge.to_flush.filter(crate::cluster::endpoint::is_not_among(merge.to_down)),
    );
}

} // verus!
