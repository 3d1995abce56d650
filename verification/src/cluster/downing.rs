//! Deciding when an unreachable member is dead for good. The default provider resolves a partition
//! towards its majority side, so that one side survives and the other one ends itself.

use vstd::prelude::*;

use crate::cluster::membership::{Member, MemberState};
use crate::cluster::state::has_member;
use crate::seqs::{age, elapsed, lemma_filter_start, lemma_filter_step};
use crate::sort::Ranked;

verus! {

/// Decides when an unreachable member is downed, polled once per heartbeat interval. A provider
/// sees the whole membership, so it can resolve a split brain by downing this node rather than the
/// members it cannot reach.
pub trait DowningProvider {
    /// The verdict for now, given all members including this node, the ones outside its
    /// reachability component and the clock.
    fn down(&mut self, members: &[Member], disconnected: Disconnected<'_>, at: u128) -> Downing;
}

/// The members outside this node's connected reachability component, each with the instant it left
/// it. A broken direct link leaves a member here only if no path through another member remains.
#[derive(Debug, Clone, Copy)]
pub struct Disconnected<'a>(pub &'a [(Member, u128)]);

impl<'a> Disconnected<'a> {
    /// The members outside the component, e.g. to drive a [DowningProvider] from a test.
    pub fn new(members: &'a [(Member, u128)]) -> (disconnected: Self)
        ensures
            disconnected.0@ == members@,
    {
        Disconnected(members)
    }
}

/// A [DowningProvider]'s verdict.
#[derive(Debug, PartialEq, Eq)]
pub enum Downing {
    /// Down these members; empty means nothing is downed now.
    Members(Vec<Member>),
    /// Down this node: it severs every connection and only a restarted process can rejoin.
    SelfDown,
}

/// A [Downing] by value.
#[verifier::ext_equal]
pub enum DowningModel {
    Members(Seq<Member>),
    SelfDown,
}

impl View for Downing {
    type V = DowningModel;

    open spec fn view(&self) -> DowningModel {
        match self {
            Downing::Members(members) => DowningModel::Members(members@),
            Downing::SelfDown => DowningModel::SelfDown,
        }
    }
}

pub open spec fn is_up_pair() -> spec_fn((Member, u128)) -> bool {
    |e: (Member, u128)| e.0.state == MemberState::Up
}

pub open spec fn is_overdue(after: u128, at: u128) -> spec_fn((Member, u128)) -> bool {
    |e: (Member, u128)| age(at, e.1) >= after
}

pub open spec fn is_up_member() -> spec_fn(Member) -> bool {
    |m: Member| m.state == MemberState::Up
}

pub open spec fn members_in(pairs: Seq<(Member, u128)>) -> Seq<Member> {
    pairs.map_values(|e: (Member, u128)| e.0)
}

/// The Up members among the disconnected ones.
pub open spec fn unreachable_up(disconnected: Seq<(Member, u128)>) -> Seq<Member> {
    members_in(disconnected.filter(is_up_pair()))
}

/// Somebody Up is unreachable, and each of them for long enough.
pub open spec fn is_settled(disconnected: Seq<(Member, u128)>, after: u128, at: u128) -> bool {
    let unreachable = disconnected.filter(is_up_pair());
    &&& unreachable.len() > 0
    &&& forall|i: int| 0 <= i < unreachable.len() ==> age(at, (#[trigger] unreachable[i]).1) >= after
}

pub open spec fn is_reachable(unreachable: Seq<Member>) -> spec_fn(Member) -> bool {
    |m: Member| !unreachable.contains(m)
}

/// The index of the first member with the lowest address.
pub open spec fn is_lowest(up: Seq<Member>, i: int) -> bool {
    &&& 0 <= i < up.len()
    &&& forall|j: int| 0 <= j < up.len() ==> !(#[trigger] up[j]).node.addr.before(up[i].node.addr)
    &&& forall|j: int| 0 <= j < i ==> up[i].node.addr.before((#[trigger] up[j]).node.addr)
}

/// The Up member with the lowest address is on this side.
pub open spec fn holds_lowest(up: Seq<Member>, unreachable: Seq<Member>) -> bool {
    exists|i: int| #[trigger] is_lowest(up, i) && !unreachable.contains(up[i])
}

/// This side sees more than half of the Up members, or half of them and the lowest address.
pub open spec fn survives(up: Seq<Member>, unreachable: Seq<Member>) -> bool {
    let reachable = up.filter(is_reachable(unreachable)).len();
    reachable * 2 > up.len() || (reachable * 2 == up.len() && holds_lowest(up, unreachable))
}

/// The default [DowningProvider]: once every unreachable member has been unreachable for the given
/// duration, the side seeing a strict majority of the Up members downs the others, any other side
/// downs itself, and an even split goes to the side holding the member with the lowest address.
#[derive(Debug, Clone, Copy, PartialEq, Eq, Structural)]
pub struct KeepMajority {
    pub after: u128,
}

impl KeepMajority {
    /// The default duration in nanoseconds: ten seconds.
    pub const DEFAULT_AFTER: u128 = 10_000_000_000;

    /// A provider deciding once every unreachable member has been unreachable for the given
    /// duration; a member falling silent or answering again postpones the decision.
    pub fn new(after: u128) -> (provider: Self)
        ensures
            provider.after == after,
    {
        KeepMajority { after }
    }

    pub open spec fn verdict(
        self,
        members: Seq<Member>,
        disconnected: Seq<(Member, u128)>,
        at: u128,
    ) -> DowningModel {
        let unreachable = unreachable_up(disconnected);
        if !is_settled(disconnected, self.after, at) {
            DowningModel::Members(Seq::empty())
        } else if survives(members.filter(is_up_member()), unreachable) {
            DowningModel::Members(unreachable)
        } else {
            DowningModel::SelfDown
        }
    }
}

impl Default for KeepMajority {
    fn default() -> (provider: Self)
        ensures
            provider.after == Self::DEFAULT_AFTER,
    {
        Self::new(Self::DEFAULT_AFTER)
    }
}

fn select_up(members: &[Member]) -> (up: Vec<Member>)
    ensures
        up@ == members@.filter(is_up_member()),
{
    let ghost p = is_up_member();
    let mut up: Vec<Member> = Vec::new();
    let mut i: usize = 0;
    proof {
        lemma_filter_start(members@, p);
    }
    while i < members.len()
        invariant
            i <= members@.len(),
            p == is_up_member(),
            up@ == members@.take(i as int).filter(p),
        decreases members@.len() - i,
    {
        let member = members[i];
        proof {
            lemma_filter_step(members@, p, i as int);
        }
        if member.state == MemberState::Up {
            up.push(member);
        }
        i = i + 1;
    }
    proof {
        lemma_filter_start(members@, p);
    }
    up
}

fn count_reachable(up: &Vec<Member>, unreachable: &Vec<Member>) -> (count: usize)
    ensures
        count == up@.filter(is_reachable(unreachable@)).len(),
        count <= up@.len(),
{
    let ghost p = is_reachable(unreachable@);
    let mut count: usize = 0;
    let mut i: usize = 0;
    proof {
        lemma_filter_start(up@, p);
    }
    while i < up.len()
        invariant
            i <= up@.len(),
            p == is_reachable(unreachable@),
            count == up@.take(i as int).filter(p).len(),
            count <= i,
        decreases up@.len() - i,
    {
        proof {
            lemma_filter_step(up@, p, i as int);
        }
        if !has_member(unreachable, up[i]) {
            count = count + 1;
        }
        i = i + 1;
    }
    proof {
        lemma_filter_start(up@, p);
    }
    count
}

proof fn lemma_lowest_unique(up: Seq<Member>, i: int, j: int)
    requires
        is_lowest(up, i),
        is_lowest(up, j),
    ensures
        i == j,
{
    if i < j {
        assert(up[j].node.addr.before(up[i].node.addr));
    } else if j < i {
        assert(up[i].node.addr.before(up[j].node.addr));
    }
}

fn lowest(up: &Vec<Member>) -> (at: Option<usize>)
    ensures
        at is None == (up@.len() == 0),
        at matches Some(i) ==> is_lowest(up@, i as int),
{
    if up.len() == 0 {
        return None;
    }
    let mut at: usize = 0;
    let mut i: usize = 1;
    proof {
        let a = up@[0].node.addr;
        if a.before(a) {
            crate::addr::SocketAddr::asymmetric(a, a);
        }
    }
    while i < up.len()
        invariant
            at < i <= up@.len(),
            forall|j: int|
                0 <= j < i ==> !(#[trigger] up@[j]).node.addr.before(up@[at as int].node.addr),
            forall|j: int|
                0 <= j < at ==> up@[at as int].node.addr.before((#[trigger] up@[j]).node.addr),
        decreases up@.len() - i,
    {
        if up[i].node.addr.is_before(&up[at].node.addr) {
            proof {
                let new = up@[i as int].node.addr;
                let old_lowest = up@[at as int].node.addr;
                assert forall|j: int| 0 <= j < i implies new.before(
                    (#[trigger] up@[j]).node.addr,
                ) by {
                    let other = up@[j].node.addr;
                    if !new.before(other) {
                        crate::addr::SocketAddr::negatively_transitive(old_lowest, other, new);
                    }
                }
                assert forall|j: int| 0 <= j < i + 1 implies !(
                #[trigger] up@[j]).node.addr.before(new) by {
                    if j < i {
                        crate::addr::SocketAddr::asymmetric(new, up@[j].node.addr);
                    } else if new.before(new) {
                        crate::addr::SocketAddr::asymmetric(new, new);
                    }
                }
            }
            at = i;
        }
        i = i + 1;
    }
    Some(at)
}

impl DowningProvider for KeepMajority {
    fn down(&mut self, members: &[Member], disconnected: Disconnected<'_>, at: u128) -> (verdict:
        Downing)
        ensures
            *final(self) == *old(self),
            verdict@ == old(self).verdict(members@, disconnected.0@, at),
    {
        let ghost p = is_up_pair();
        let pairs = disconnected.0;
        let mut unreachable: Vec<Member> = Vec::new();
        let mut all_overdue = true;
        let mut i: usize = 0;
        proof {
            lemma_filter_start(pairs@, p);
            assert(unreachable@ =~= members_in(pairs@.take(0).filter(p)));
        }
        while i < pairs.len()
            invariant
                i <= pairs@.len(),
                p == is_up_pair(),
                unreachable@ == members_in(pairs@.take(i as int).filter(p)),
                all_overdue == (forall|k: int|
                    0 <= k < pairs@.take(i as int).filter(p).len() ==> age(
                        at,
                        (#[trigger] pairs@.take(i as int).filter(p)[k]).1,
                    ) >= self.after),
            decreases pairs@.len() - i,
        {
            let (member, since) = pairs[i];
            let ghost seen = pairs@.take(i as int).filter(p);
            let ghost next = pairs@.take(i + 1).filter(p);
            proof {
                lemma_filter_step(pairs@, p, i as int);
            }
            if member.state == MemberState::Up {
                unreachable.push(member);
                let overdue = elapsed(at, since) >= self.after;
                proof {
                    assert(next == seen.push((member, since)));
                    assert(unreachable@ =~= members_in(next));
                    if all_overdue && overdue {
                        assert forall|k: int| 0 <= k < next.len() implies age(
                            at,
                            (#[trigger] next[k]).1,
                        ) >= self.after by {
                            if k < seen.len() {
                                assert(next[k] == seen[k]);
                            }
                        }
                    } else if !overdue {
                        assert(next[seen.len() as int] == (member, since));
                    } else {
                        let k = choose|k: int|
                            0 <= k < seen.len() && age(at, (#[trigger] seen[k]).1) < self.after;
                        assert(next[k] == seen[k]);
                    }
                }
                all_overdue = all_overdue && overdue;
            }
            i = i + 1;
        }
        proof {
            lemma_filter_start(pairs@, p);
        }
        if unreachable.len() == 0 || !all_overdue {
            return Downing::Members(Vec::new());
        }
        let up = select_up(members);
        let reachable = count_reachable(&up, &unreachable);
        let holds = match lowest(&up) {
            Some(i) => {
                proof {
                    if holds_lowest(up@, unreachable@) {
                        let j = choose|j: int| #[trigger] is_lowest(up@, j) && !unreachable@.contains(up@[j]);
                        lemma_lowest_unique(up@, i as int, j);
                    }
                }
                !has_member(&unreachable, up[i])
            },
            None => false,
        };
        let twice: u128 = reachable as u128 * 2;
        if twice > up.len() as u128 || (twice == up.len() as u128 && holds) {
            Downing::Members(unreachable)
        } else {
            Downing::SelfDown
        }
    }
}

/// A [DowningProvider] downing every member unreachable for the given duration. During a partition
/// each side downs the other one, so this is a choice for tests alone.
#[derive(Debug, Clone, Copy, PartialEq, Eq, Structural)]
pub struct DownAfterDeadline {
    pub after: u128,
}

impl DownAfterDeadline {
    /// A provider downing members unreachable for the given duration.
    pub fn new(after: u128) -> (provider: Self)
        ensures
            provider.after == after,
    {
        DownAfterDeadline { after }
    }
}

impl DowningProvider for DownAfterDeadline {
    fn down(&mut self, members: &[Member], disconnected: Disconnected<'_>, at: u128) -> (verdict:
        Downing)
        ensures
            *final(self) == *old(self),
            verdict@ == DowningModel::Members(
                members_in(disconnected.0@.filter(is_overdue(old(self).after, at))),
            ),
    {
        let ghost p = is_overdue(self.after, at);
        let pairs = disconnected.0;
        let mut overdue: Vec<Member> = Vec::new();
        let mut i: usize = 0;
        proof {
            lemma_filter_start(pairs@, p);
            assert(overdue@ =~= members_in(pairs@.take(0).filter(p)));
        }
        while i < pairs.len()
            invariant
                i <= pairs@.len(),
                p == is_overdue(self.after, at),
                overdue@ == members_in(pairs@.take(i as int).filter(p)),
            decreases pairs@.len() - i,
        {
            let (member, since) = pairs[i];
            proof {
                lemma_filter_step(pairs@, p, i as int);
            }
            if elapsed(at, since) >= self.after {
                overdue.push(member);
                assert(overdue@ =~= members_in(pairs@.take(i + 1).filter(p)));
            }
            i = i + 1;
        }
        proof {
            lemma_filter_start(pairs@, p);
        }
        Downing::Members(overdue)
    }
}

/// A [DowningProvider] chosen by a configuration.
#[derive(Debug, Clone, Copy, PartialEq, Eq, Structural)]
pub enum DowningProviderConfig {
    KeepMajority(KeepMajority),
    DownAfterDeadline(DownAfterDeadline),
}

impl DowningProvider for DowningProviderConfig {
    fn down(&mut self, members: &[Member], disconnected: Disconnected<'_>, at: u128) -> (verdict:
        Downing)
        ensures
            *final(self) == *old(self),
            verdict@ == (match *old(self) {
                DowningProviderConfig::KeepMajority(provider) => provider.verdict(
                    members@,
                    disconnected.0@,
                    at,
                ),
                DowningProviderConfig::DownAfterDeadline(provider) => DowningModel::Members(
                    members_in(disconnected.0@.filter(is_overdue(provider.after, at))),
                ),
            }),
    {
        match self {
            DowningProviderConfig::KeepMajority(provider) => {
                let mut provider = *provider;
                provider.down(members, disconnected, at)
            },
            DowningProviderConfig::DownAfterDeadline(provider) => {
                let mut provider = *provider;
                provider.down(members, disconnected, at)
            },
        }
    }
}

/// Each Up member is reachable from at most one of two sides.
pub open spec fn are_disjoint(up: Seq<Member>, left: Seq<Member>, right: Seq<Member>) -> bool {
    forall|i: int|
        0 <= i < up.len() ==> left.contains(#[trigger] up[i]) || right.contains(up[i])
}

proof fn lemma_counts(up: Seq<Member>, left: Seq<Member>, right: Seq<Member>)
    requires
        are_disjoint(up, left, right),
    ensures
        up.filter(is_reachable(left)).len() + up.filter(is_reachable(right)).len() <= up.len(),
        (forall|i: int|
            0 <= i < up.len() ==> !(left.contains(#[trigger] up[i]) && right.contains(up[i])))
            ==> up.filter(is_reachable(left)).len() + up.filter(is_reachable(right)).len()
            == up.len(),
    decreases up.len(),
{
    reveal(Seq::filter);
    if up.len() > 0 {
        let rest = up.drop_last();
        assert forall|i: int| 0 <= i < rest.len() implies left.contains(#[trigger] rest[i])
            || right.contains(rest[i]) by {
            assert(rest[i] == up[i]);
        }
        lemma_counts(rest, left, right);
        let last = up[up.len() - 1];
        assert(left.contains(last) || right.contains(last));
        if forall|i: int|
            0 <= i < up.len() ==> !(left.contains(#[trigger] up[i]) && right.contains(up[i])) {
            assert forall|i: int| 0 <= i < rest.len() implies !(left.contains(#[trigger] rest[i])
                && right.contains(rest[i])) by {
                assert(rest[i] == up[i]);
            }
            assert(!(left.contains(last) && right.contains(last)));
        }
    }
}

/// No two sides of a partition both survive it, provided their member lists agreed: of any two
/// sides which share no Up member, at most one keeps a majority or half with the lowest address.
pub proof fn no_two_sides_survive(
    provider: KeepMajority,
    members: Seq<Member>,
    left: Seq<(Member, u128)>,
    right: Seq<(Member, u128)>,
    at_left: u128,
    at_right: u128,
)
    requires
        are_disjoint(members.filter(is_up_member()), unreachable_up(left), unreachable_up(right)),
        is_settled(left, provider.after, at_left),
        is_settled(right, provider.after, at_right),
    ensures
        provider.verdict(members, left, at_left) is SelfDown || provider.verdict(
            members,
            right,
            at_right,
        ) is SelfDown,
{
    let up = members.filter(is_up_member());
    let l = unreachable_up(left);
    let r = unreachable_up(right);
    lemma_counts(up, l, r);
    if survives(up, l) && survives(up, r) {
        let i = choose|i: int| #[trigger] is_lowest(up, i) && !l.contains(up[i]);
        let j = choose|j: int| #[trigger] is_lowest(up, j) && !r.contains(up[j]);
        assert(up.filter(is_reachable(l)).len() * 2 == up.len());
        assert(up.filter(is_reachable(r)).len() * 2 == up.len());
        lemma_lowest_unique(up, i, j);
        assert(l.contains(up[i]) || r.contains(up[i]));
    }
}

proof fn lemma_lowest_exists(up: Seq<Member>) -> (i: int)
    requires
        up.len() > 0,
    ensures
        is_lowest(up, i),
    decreases up.len(),
{
    let last = up.len() - 1;
    if up.len() == 1 {
        let a = up[0].node.addr;
        if a.before(a) {
            crate::addr::SocketAddr::asymmetric(a, a);
        }
        0
    } else {
        let rest = up.drop_last();
        let i = lemma_lowest_exists(rest);
        let new = up[last].node.addr;
        let lowest = up[i].node.addr;
        assert forall|j: int| 0 <= j < rest.len() implies #[trigger] rest[j] == up[j] by {}
        if new.before(lowest) {
            assert forall|j: int| 0 <= j < last implies new.before(
                (#[trigger] up[j]).node.addr,
            ) by {
                assert(rest[j] == up[j]);
                if !new.before(up[j].node.addr) {
                    crate::addr::SocketAddr::negatively_transitive(lowest, up[j].node.addr, new);
                }
            }
            assert forall|j: int| 0 <= j < up.len() implies !(#[trigger] up[j]).node.addr.before(
                new,
            ) by {
                if j < last {
                    crate::addr::SocketAddr::asymmetric(new, up[j].node.addr);
                } else if new.before(new) {
                    crate::addr::SocketAddr::asymmetric(new, new);
                }
            }
            last
        } else {
            assert forall|j: int| 0 <= j < up.len() implies !(#[trigger] up[j]).node.addr.before(
                lowest,
            ) by {
                if j < last {
                    assert(rest[j] == up[j]);
                }
            }
            assert forall|j: int| 0 <= j < i implies lowest.before((#[trigger] up[j]).node.addr) by {
                assert(rest[j] == up[j]);
            }
            i
        }
    }
}

/// Exactly one side of a partition into two survives it, provided their member lists agreed before
/// it: one side downs the other one's members, and the other side downs itself.
pub proof fn exactly_one_side_survives(
    provider: KeepMajority,
    members: Seq<Member>,
    left: Seq<(Member, u128)>,
    right: Seq<(Member, u128)>,
    at_left: u128,
    at_right: u128,
)
    requires
        forall|i: int|
            0 <= i < members.filter(is_up_member()).len() ==> unreachable_up(left).contains(
                #[trigger] members.filter(is_up_member())[i],
            ) != unreachable_up(right).contains(members.filter(is_up_member())[i]),
        members.filter(is_up_member()).len() > 0,
        is_settled(left, provider.after, at_left),
        is_settled(right, provider.after, at_right),
    ensures
        ({
            let l = provider.verdict(members, left, at_left);
            let r = provider.verdict(members, right, at_right);
            ||| l == DowningModel::Members(unreachable_up(left)) && r is SelfDown
            ||| r == DowningModel::Members(unreachable_up(right)) && l is SelfDown
        }),
{
    let up = members.filter(is_up_member());
    let l = unreachable_up(left);
    let r = unreachable_up(right);
    assert(are_disjoint(up, l, r));
    lemma_counts(up, l, r);
    no_two_sides_survive(provider, members, left, right, at_left, at_right);
    let i = lemma_lowest_exists(up);
    assert(l.contains(up[i]) != r.contains(up[i]));
}

/// What a side of a partition decides, by counting the Up members directly. Nothing while nobody Up
/// is disconnected or somebody has not been for long enough. Else the side which reaches more than
/// half of the Up members downs exactly the disconnected Up ones, in order, the side which reaches
/// fewer downs itself, and of two halves the one with the lowest address survives.
pub proof fn the_majority_survives(
    provider: KeepMajority,
    members: Seq<Member>,
    disconnected: Seq<(Member, u128)>,
    at: u128,
)
    ensures
        ({
            let up = Set::new(
                |i: int| 0 <= i < members.len() && members[i].state == MemberState::Up,
            );
            let reached = Set::new(
                |i: int|
                    0 <= i < members.len() && members[i].state == MemberState::Up && (forall|k: int|
                        0 <= k < disconnected.len() ==> (#[trigger] disconnected[k]).0
                            != members[i]),
            );
            let lost = disconnected.filter(
                |d: (Member, u128)| d.0.state == MemberState::Up,
            ).map_values(|d: (Member, u128)| d.0);
            let somebody = exists|k: int|
                0 <= k < disconnected.len() && (#[trigger] disconnected[k]).0.state
                    == MemberState::Up;
            let for_long = forall|k: int|
                0 <= k < disconnected.len() && (#[trigger] disconnected[k]).0.state
                    == MemberState::Up ==> (at - disconnected[k].1 >= provider.after
                    || provider.after == 0);
            let verdict = provider.verdict(members, disconnected, at);
            &&& reached.subset_of(up)
            &&& up.finite()
            &&& !(somebody && for_long) ==> verdict == DowningModel::Members(Seq::empty())
            &&& somebody && for_long && reached.len() * 2 > up.len() ==> verdict
                == DowningModel::Members(lost)
            &&& somebody && for_long && reached.len() * 2 < up.len() ==> verdict
                == DowningModel::SelfDown
            &&& somebody && for_long && reached.len() * 2 == up.len() ==> forall|i: int|
                #[trigger]
                up.contains(i) && (forall|j: int| #[trigger]
                    up.contains(j) && j != i ==> members[i].node.addr.before(
                        members[j].node.addr,
                    )) ==> verdict == if reached.contains(i) {
                    DowningModel::Members(lost)
                } else {
                    DowningModel::SelfDown
                }
        }),
{
    let is_up = |m: Member| m.state == MemberState::Up;
    let is_lost = |d: (Member, u128)| d.0.state == MemberState::Up;
    let gone = disconnected.filter(is_lost);
    assert(is_up =~= is_up_member());
    assert(is_lost =~= is_up_pair());
    let lost = gone.map_values(|d: (Member, u128)| d.0);
    assert(lost =~= unreachable_up(disconnected));
    let p = is_reachable(lost);
    let both = |m: Member| is_up(m) && p(m);
    let all = members.filter(is_up);
    crate::seqs::lemma_filter_twice(members, is_up, p, both);
    crate::seqs::lemma_filter_counts(members, is_up);
    crate::seqs::lemma_filter_counts(members, both);
    let up = Set::new(|i: int| 0 <= i < members.len() && members[i].state == MemberState::Up);
    let reached = Set::new(
        |i: int|
            0 <= i < members.len() && members[i].state == MemberState::Up && (forall|k: int|
                0 <= k < disconnected.len() ==> (#[trigger] disconnected[k]).0 != members[i]),
    );
    assert(up =~= crate::seqs::positions(members, is_up));
    assert forall|i: int| 0 <= i < members.len() && is_up(members[i]) implies lost.contains(
        members[i],
    ) == (exists|k: int|
        0 <= k < disconnected.len() && (#[trigger] disconnected[k]).0 == members[i]) by {
        lemma_lost(disconnected, members[i]);
    }
    assert(reached =~= crate::seqs::positions(members, both)) by {
        assert forall|i: int| reached.contains(i) == crate::seqs::positions(members, both).contains(
            i,
        ) by {
            if 0 <= i < members.len() && is_up(members[i]) {
                assert(lost.contains(members[i]) == (exists|k: int|
                    0 <= k < disconnected.len() && (#[trigger] disconnected[k]).0 == members[i]));
            }
        }
    }
    lemma_settled(disconnected, provider.after, at);
    if reached.len() * 2 == up.len() {
        assert forall|i: int| #[trigger]
            up.contains(i) && (forall|j: int| #[trigger]
                up.contains(j) && j != i ==> members[i].node.addr.before(
                    members[j].node.addr,
                )) implies reached.contains(i) == holds_lowest(all, lost) by {
            assert forall|j: int|
                0 <= j < members.len() && (#[trigger] members[j]).state == MemberState::Up && j
                    != i implies members[i].node.addr.before(members[j].node.addr) by {
                assert(up.contains(j));
            }
            lemma_strictly_lowest(members, i);
            let k = choose|k: int| is_lowest(all, k) && all[k] == members[i];
            assert(lost.contains(members[i]) == !reached.contains(i));
            if holds_lowest(all, lost) {
                let j = choose|j: int| #[trigger] is_lowest(all, j) && !lost.contains(all[j]);
                lemma_lowest_unique(all, j, k);
            }
        }
    }
}

proof fn lemma_lost(disconnected: Seq<(Member, u128)>, member: Member)
    requires
        member.state == MemberState::Up,
    ensures
        unreachable_up(disconnected).contains(member) == (exists|k: int|
            0 <= k < disconnected.len() && (#[trigger] disconnected[k]).0 == member),
{
    let gone = disconnected.filter(is_up_pair());
    let lost = unreachable_up(disconnected);
    if lost.contains(member) {
        let i = lost.index_of(member);
        assert(gone.contains(gone[i]));
        crate::seqs::lemma_filter_contains(disconnected, is_up_pair(), gone[i]);
        let k = disconnected.index_of(gone[i]);
        assert(disconnected[k].0 == member);
    }
    if exists|k: int| 0 <= k < disconnected.len() && (#[trigger] disconnected[k]).0 == member {
        let k = choose|k: int|
            0 <= k < disconnected.len() && (#[trigger] disconnected[k]).0 == member;
        assert(disconnected.contains(disconnected[k]));
        crate::seqs::lemma_filter_contains(disconnected, is_up_pair(), disconnected[k]);
        let i = gone.index_of(disconnected[k]);
        assert(lost[i] == member);
    }
}

proof fn lemma_settled(disconnected: Seq<(Member, u128)>, after: u128, at: u128)
    ensures
        is_settled(disconnected, after, at) == ((exists|k: int|
            0 <= k < disconnected.len() && (#[trigger] disconnected[k]).0.state == MemberState::Up)
            && (forall|k: int|
            0 <= k < disconnected.len() && (#[trigger] disconnected[k]).0.state == MemberState::Up
                ==> (at - disconnected[k].1 >= after || after == 0))),
{
    let gone = disconnected.filter(is_up_pair());
    assert forall|k: int|
        0 <= k < disconnected.len() && (#[trigger] disconnected[k]).0.state
            == MemberState::Up implies gone.contains(disconnected[k]) by {
        assert(disconnected.contains(disconnected[k]));
        crate::seqs::lemma_filter_contains(disconnected, is_up_pair(), disconnected[k]);
    }
    assert forall|i: int| 0 <= i < gone.len() implies disconnected.contains(#[trigger] gone[i])
        && gone[i].0.state == MemberState::Up by {
        assert(gone.contains(gone[i]));
        crate::seqs::lemma_filter_contains(disconnected, is_up_pair(), gone[i]);
    }
    if gone.len() > 0 {
        let k = disconnected.index_of(gone[0]);
        assert(disconnected[k].0.state == MemberState::Up);
    }
    if is_settled(disconnected, after, at) {
        assert forall|k: int|
            0 <= k < disconnected.len() && (#[trigger] disconnected[k]).0.state
                == MemberState::Up implies at - disconnected[k].1 >= after || after == 0 by {
            let i = gone.index_of(disconnected[k]);
            assert(age(at, gone[i].1) >= after);
        }
    } else if gone.len() > 0 {
        let i = choose|i: int| 0 <= i < gone.len() && age(at, (#[trigger] gone[i]).1) < after;
        let k = disconnected.index_of(gone[i]);
        assert(disconnected[k] == gone[i]);
    }
}

proof fn lemma_strictly_lowest(members: Seq<Member>, i: int)
    requires
        0 <= i < members.len(),
        members[i].state == MemberState::Up,
        forall|j: int|
            0 <= j < members.len() && (#[trigger] members[j]).state == MemberState::Up && j != i
                ==> members[i].node.addr.before(members[j].node.addr),
    ensures
        exists|k: int|
            is_lowest(members.filter(is_up_member()), k) && members.filter(is_up_member())[k]
                == members[i],
{
    let all = members.filter(is_up_member());
    assert(members.contains(members[i]));
    crate::seqs::lemma_filter_contains(members, is_up_member(), members[i]);
    let k = lemma_lowest_exists(all);
    assert(all.contains(all[k]));
    crate::seqs::lemma_filter_contains(members, is_up_member(), all[k]);
    let j = members.index_of(all[k]);
    assert(members[j].state == MemberState::Up);
    if j != i {
        let n = all.index_of(members[i]);
        assert(!all[n].node.addr.before(all[k].node.addr));
    }
}

/// The provider for tests downs exactly those which have been disconnected for long enough, in
/// order, whatever the others are.
pub proof fn a_deadline_downs_the_overdue(
    provider: DownAfterDeadline,
    disconnected: Seq<(Member, u128)>,
    at: u128,
    member: Member,
)
    ensures
        members_in(disconnected.filter(is_overdue(provider.after, at))).contains(member) == (
        exists|k: int|
            0 <= k < disconnected.len() && (#[trigger] disconnected[k]).0 == member && (at
                - disconnected[k].1 >= provider.after || provider.after == 0)),
        members_in(disconnected.filter(is_overdue(provider.after, at))).len() == Set::new(
            |k: int|
                0 <= k < disconnected.len() && (at - disconnected[k].1 >= provider.after
                    || provider.after == 0),
        ).len(),
{
    let p = is_overdue(provider.after, at);
    let overdue = disconnected.filter(p);
    let downed = members_in(overdue);
    crate::seqs::lemma_filter_counts(disconnected, p);
    assert(crate::seqs::positions(disconnected, p) =~= Set::new(
        |k: int|
            0 <= k < disconnected.len() && (at - disconnected[k].1 >= provider.after
                || provider.after == 0),
    ));
    if downed.contains(member) {
        let i = downed.index_of(member);
        assert(overdue.contains(overdue[i]));
        crate::seqs::lemma_filter_contains(disconnected, p, overdue[i]);
        let k = disconnected.index_of(overdue[i]);
        assert(disconnected[k].0 == member);
    }
    if exists|k: int|
        0 <= k < disconnected.len() && (#[trigger] disconnected[k]).0 == member && (at
            - disconnected[k].1 >= provider.after || provider.after == 0) {
        let k = choose|k: int|
            0 <= k < disconnected.len() && (#[trigger] disconnected[k]).0 == member && (at
                - disconnected[k].1 >= provider.after || provider.after == 0);
        assert(disconnected.contains(disconnected[k]));
        crate::seqs::lemma_filter_contains(disconnected, p, disconnected[k]);
        let i = overdue.index_of(disconnected[k]);
        assert(downed[i] == member);
    }
}

/// What [KeepMajority] answers: of a side which reaches more than half of the Up members exactly the
/// ones it has lost, of a side which reaches fewer itself, and of two halves the one without the
/// lowest address; nobody before all who are lost have been for long enough. Asking changes nothing.
pub proof fn the_majority_is_kept(
    provider: &mut KeepMajority,
    members: &[Member],
    disconnected: Disconnected<'_>,
    at: u128,
    verdict: Downing,
)
    requires
        call_ensures(
            <KeepMajority as DowningProvider>::down,
            (provider, members, disconnected, at),
            verdict,
        ),
    ensures
        *final(provider) == *old(provider),
        ({
            let up = Set::new(
                |i: int| 0 <= i < members@.len() && members@[i].state == MemberState::Up,
            );
            let reached = Set::new(
                |i: int|
                    0 <= i < members@.len() && members@[i].state == MemberState::Up && (forall|
                        k: int,
                    |
                        0 <= k < disconnected.0@.len() ==> (#[trigger] disconnected.0@[k]).0
                            != members@[i]),
            );
            let lost = disconnected.0@.filter(
                |d: (Member, u128)| d.0.state == MemberState::Up,
            ).map_values(|d: (Member, u128)| d.0);
            let overdue = (exists|k: int|
                0 <= k < disconnected.0@.len() && (#[trigger] disconnected.0@[k]).0.state
                    == MemberState::Up) && (forall|k: int|
                0 <= k < disconnected.0@.len() && (#[trigger] disconnected.0@[k]).0.state
                    == MemberState::Up ==> (at - disconnected.0@[k].1 >= old(provider).after
                    || old(provider).after == 0));
            &&& !overdue ==> verdict@ == DowningModel::Members(Seq::empty())
            &&& overdue && reached.len() * 2 > up.len() ==> verdict@ == DowningModel::Members(lost)
            &&& overdue && reached.len() * 2 < up.len() ==> verdict@ == DowningModel::SelfDown
            &&& overdue && reached.len() * 2 == up.len() ==> forall|i: int| #[trigger]
                up.contains(i) && (forall|j: int| #[trigger]
                    up.contains(j) && j != i ==> members@[i].node.addr.before(
                        members@[j].node.addr,
                    )) ==> verdict@ == if reached.contains(i) {
                    DowningModel::Members(lost)
                } else {
                    DowningModel::SelfDown
                }
        }),
{
    the_majority_survives(*old(provider), members@, disconnected.0@, at);
}

/// A configured provider answers as the one it is configured to be.
pub proof fn a_configured_provider_answers_as_itself(
    config: &mut DowningProviderConfig,
    members: &[Member],
    disconnected: Disconnected<'_>,
    at: u128,
    verdict: Downing,
    member: Member,
)
    requires
        call_ensures(
            <DowningProviderConfig as DowningProvider>::down,
            (config, members, disconnected, at),
            verdict,
        ),
    ensures
        *old(config) matches DowningProviderConfig::KeepMajority(provider) ==> ({
            let up = Set::new(
                |i: int| 0 <= i < members@.len() && members@[i].state == MemberState::Up,
            );
            let reached = Set::new(
                |i: int|
                    0 <= i < members@.len() && members@[i].state == MemberState::Up && (forall|
                        k: int,
                    |
                        0 <= k < disconnected.0@.len() ==> (#[trigger] disconnected.0@[k]).0
                            != members@[i]),
            );
            let lost = disconnected.0@.filter(
                |d: (Member, u128)| d.0.state == MemberState::Up,
            ).map_values(|d: (Member, u128)| d.0);
            let overdue = (exists|k: int|
                0 <= k < disconnected.0@.len() && (#[trigger] disconnected.0@[k]).0.state
                    == MemberState::Up) && (forall|k: int|
                0 <= k < disconnected.0@.len() && (#[trigger] disconnected.0@[k]).0.state
                    == MemberState::Up ==> (at - disconnected.0@[k].1 >= provider.after
                    || provider.after == 0));
            &&& !overdue ==> verdict@ == DowningModel::Members(Seq::empty())
            &&& overdue && reached.len() * 2 > up.len() ==> verdict@ == DowningModel::Members(lost)
            &&& overdue && reached.len() * 2 < up.len() ==> verdict@ == DowningModel::SelfDown
            &&& overdue && reached.len() * 2 == up.len() ==> forall|i: int| #[trigger]
                up.contains(i) && (forall|j: int| #[trigger]
                    up.contains(j) && j != i ==> members@[i].node.addr.before(
                        members@[j].node.addr,
                    )) ==> verdict@ == if reached.contains(i) {
                    DowningModel::Members(lost)
                } else {
                    DowningModel::SelfDown
                }
        }),
        *old(config) matches DowningProviderConfig::DownAfterDeadline(provider) ==> (verdict@ matches
            DowningModel::Members(downed) && (downed.contains(member) <==> exists|k: int|
            0 <= k < disconnected.0@.len() && (#[trigger] disconnected.0@[k]).0 == member && (at
                - disconnected.0@[k].1 >= provider.after || provider.after == 0))),
{
    match *old(config) {
        DowningProviderConfig::KeepMajority(provider) => {
            the_majority_survives(provider, members@, disconnected.0@, at);
        },
        DowningProviderConfig::DownAfterDeadline(provider) => {
            a_deadline_downs_the_overdue(provider, disconnected.0@, at, member);
        },
    }
}

/// What [DownAfterDeadline] answers: exactly those who have been disconnected for long enough.
pub proof fn the_overdue_are_downed(
    provider: &mut DownAfterDeadline,
    members: &[Member],
    disconnected: Disconnected<'_>,
    at: u128,
    verdict: Downing,
    member: Member,
)
    requires
        call_ensures(
            <DownAfterDeadline as DowningProvider>::down,
            (provider, members, disconnected, at),
            verdict,
        ),
    ensures
        verdict@ matches DowningModel::Members(downed) && (downed.contains(member) <==> exists|k: int|
            0 <= k < disconnected.0@.len() && (#[trigger] disconnected.0@[k]).0 == member && (at
                - disconnected.0@[k].1 >= old(provider).after || old(provider).after == 0)),
{
    a_deadline_downs_the_overdue(*old(provider), disconnected.0@, at, member);
}

} // verus!
