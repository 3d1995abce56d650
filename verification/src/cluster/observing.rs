//! Observing the cluster: where this node's view of it has changed, what follows for the replicated
//! sets is carried out and the view published under the next version.

use vstd::prelude::*;

use crate::cluster::endpoint::EndpointModel;
use crate::cluster::failure::FailureDetector;
use crate::cluster::membership::{Member, MemberState};
use crate::cluster::outbound::Towards;
use crate::cluster::reachability::{is_connected, is_walk, up_of, ReachabilityModel};
use crate::cluster::receptionist::{is_republished, next_revision, Receptionist, ReceptionistModel,
    ReplicaModel, Subscribed};
use crate::cluster::rounds::{lemma_observed_keeps, Round};
use crate::cluster::state::{a_state_does_not_differ_from_itself, copy_members, ClusterState,
    ClusterStateModel, PublishedChangeModel, Transition};
use crate::ids::NodeId;
use crate::seqs::{lemma_filter_contains, lemma_filter_none, lemma_filter_start, lemma_filter_step};

verus! {

impl ReceptionistModel {
    /// What a transition means for the replicated sets: the one of a member which came Up is shown,
    /// and those of the incarnations a Down member's fence covers are dropped.
    pub open spec fn carrying(self, transition: Transition) -> ReceptionistModel {
        match transition {
            Transition::Up(member) => if self.is_hidden(member.node) {
                self.with_origin_up(member.node)
            } else {
                self
            },
            Transition::Down(member) => self.evicted(member.node),
            _ => self,
        }
    }

    pub open spec fn carried_out(self, transitions: Seq<Transition>) -> ReceptionistModel
        decreases transitions.len(),
    {
        if transitions.len() == 0 {
            self
        } else {
            self.carried_out(transitions.drop_last()).carrying(transitions.last())
        }
    }

    /// The view as the state which follows the current one.
    pub open spec fn next_state(
        self,
        members: Seq<Member>,
        unreachable: Seq<Member>,
    ) -> ClusterStateModel {
        ClusterStateModel {
            version: next_revision(self.state.version),
            this: self.node,
            members,
            unreachable,
        }
    }

    /// What the view changes of the current state.
    pub open spec fn transitions(self, members: Seq<Member>, unreachable: Seq<Member>) -> Seq<
        Transition,
    > {
        self.next_state(members, unreachable).diff(self.state)
    }

    /// Nothing where nothing changed, else the transitions carried out and then the next state
    /// published with the verdict on it.
    pub open spec fn observing(
        self,
        members: Seq<Member>,
        unreachable: Seq<Member>,
    ) -> ReceptionistModel {
        let transitions = self.transitions(members, unreachable);
        if transitions.len() == 0 {
            self
        } else {
            self.carried_out(transitions).publishing(self.next_state(members, unreachable))
        }
    }
}

/// The subscriptions after a transition: brought up to date wherever it changes what is shown.
pub open spec fn is_carried(
    receptionist: ReceptionistModel,
    transition: Transition,
    before: Seq<Subscribed>,
    after: Seq<Subscribed>,
) -> bool {
    let replicas = receptionist.carrying(transition).replicas;
    match transition {
        Transition::Up(member) => if receptionist.is_hidden(member.node) {
            is_republished(before, after, replicas)
        } else {
            after == before
        },
        Transition::Down(_) => is_republished(before, after, replicas),
        _ => after == before,
    }
}

/// The subscriptions after the transitions, one after the other.
pub open spec fn are_carried(
    receptionist: ReceptionistModel,
    transitions: Seq<Transition>,
    before: Seq<Subscribed>,
    after: Seq<Subscribed>,
) -> bool
    decreases transitions.len(),
{
    if transitions.len() == 0 {
        after == before
    } else {
        exists|between: Seq<Subscribed>|
            are_carried(
                receptionist,
                transitions.drop_last(),
                before,
                between,
            ) && #[trigger] is_carried(
                receptionist.carried_out(transitions.drop_last()),
                transitions.last(),
                between,
                after,
            )
    }
}

proof fn lemma_carried_step(
    receptionist: ReceptionistModel,
    transitions: Seq<Transition>,
    before: Seq<Subscribed>,
    between: Seq<Subscribed>,
    after: Seq<Subscribed>,
)
    requires
        transitions.len() > 0,
        are_carried(receptionist, transitions.drop_last(), before, between),
        is_carried(
            receptionist.carried_out(transitions.drop_last()),
            transitions.last(),
            between,
            after,
        ),
    ensures
        are_carried(receptionist, transitions, before, after),
{
}

/// The members of a round outside this node's component.
pub open spec fn outside_of(disconnected: Seq<(Member, u128)>) -> Seq<Member> {
    disconnected.map_values(|d: (Member, u128)| d.0)
}

impl Receptionist {
    /// Takes this node's view of the cluster: the members and the Up ones it derives as unreachable.
    /// A view nothing has changed of is not published.
    pub fn observe(&mut self, members: Vec<Member>, unreachable: Vec<Member>)
        requires
            old(self).wf(),
        ensures
            final(self).wf(),
            final(self)@ == old(self)@.observing(members@, unreachable@),
            are_carried(
                old(self)@,
                old(self)@.transitions(members@, unreachable@),
                old(self).subscribed(),
                final(self).subscribed(),
            ),
    {
        let version: u64 = if self.state.version == u64::MAX {
            0
        } else {
            self.state.version + 1
        };
        let next = ClusterState::new(self.node, version, members, unreachable);
        let transitions = next.diff(&self.state);
        let ghost all = transitions@;
        let mut i: usize = 0;
        assert(all.take(0) =~= Seq::empty());
        while i < transitions.len()
            invariant
                i <= all.len(),
                all == transitions@,
                self.wf(),
                self@ == old(self)@.carried_out(all.take(i as int)),
                are_carried(
                    old(self)@,
                    all.take(i as int),
                    old(self).subscribed(),
                    self.subscriptions@,
                ),
            decreases all.len() - i,
        {
            let ghost before = *self;
            proof {
                assert(all.take(i + 1).drop_last() =~= all.take(i as int));
                assert(all.take(i + 1).last() == all[i as int]);
            }
            match transitions[i] {
                Transition::Up(member) => {
                    self.origin_up(member.node);
                },
                Transition::Down(member) => {
                    self.evict_fenced(member.node);
                },
                _ => {},
            }
            proof {
                lemma_carried_step(
                    old(self)@,
                    all.take(i + 1),
                    old(self).subscribed(),
                    before.subscriptions@,
                    self.subscriptions@,
                );
            }
            i = i + 1;
        }
        assert(all.take(all.len() as int) =~= all);
        if transitions.len() > 0 {
            self.publish(next);
        }
    }
}

/// Takes the view a membership round found.
pub fn observe_round(receptionist: &mut Receptionist, round: &Round)
    requires
        old(receptionist).wf(),
    ensures
        final(receptionist).wf(),
        final(receptionist)@ == old(receptionist)@.observing(
            round.members@,
            outside_of(round.disconnected@),
        ),
        are_carried(
            old(receptionist)@,
            old(receptionist)@.transitions(round.members@, outside_of(round.disconnected@)),
            old(receptionist).subscribed(),
            final(receptionist).subscribed(),
        ),
{
    let mut unreachable: Vec<Member> = Vec::new();
    let mut i: usize = 0;
    while i < round.disconnected.len()
        invariant
            i <= round.disconnected@.len(),
            unreachable@ =~= outside_of(round.disconnected@.take(i as int)),
        decreases round.disconnected@.len() - i,
    {
        unreachable.push(round.disconnected[i].0);
        i = i + 1;
    }
    assert(round.disconnected@.take(i as int) =~= round.disconnected@);
    let members = copy_members(&round.members);
    receptionist.observe(members, unreachable);
}

pub open spec fn is_state() -> spec_fn(PublishedChangeModel) -> bool {
    |change: PublishedChangeModel| change is State
}

/// The states among what was published.
pub open spec fn states_of(published: Seq<PublishedChangeModel>) -> Seq<ClusterStateModel> {
    published.filter(is_state()).map_values(|change: PublishedChangeModel| change->State_0)
}

proof fn lemma_resettled_publishes_no_state(receptionist: ReceptionistModel)
    ensures
        states_of(receptionist.resettled().published) == states_of(receptionist.published),
        receptionist.resettled().state == receptionist.state,
        receptionist.resettled().node == receptionist.node,
{
    let after = receptionist.resettled().published;
    if after != receptionist.published {
        reveal(Seq::filter);
        assert(after.drop_last() =~= receptionist.published);
    }
}

proof fn lemma_carrying_publishes_no_state(
    receptionist: ReceptionistModel,
    transitions: Seq<Transition>,
)
    ensures
        states_of(receptionist.carried_out(transitions).published) == states_of(
            receptionist.published,
        ),
        receptionist.carried_out(transitions).state == receptionist.state,
        receptionist.carried_out(transitions).node == receptionist.node,
    decreases transitions.len(),
{
    if transitions.len() > 0 {
        lemma_carrying_publishes_no_state(receptionist, transitions.drop_last());
        let before = receptionist.carried_out(transitions.drop_last());
        match transitions.last() {
            Transition::Up(member) => {
                lemma_resettled_publishes_no_state(
                    ReceptionistModel {
                        replicas: before.replicas.insert(
                            member.node,
                            ReplicaModel {
                                visible: true,
                                ..before.replicas[member.node]
                            },
                        ),
                        ..before
                    },
                );
            },
            Transition::Down(member) => {
                lemma_resettled_publishes_no_state(
                    ReceptionistModel { replicas: before.evicted(member.node).replicas, ..before },
                );
            },
            _ => {},
        }
    }
}

/// The version rises by one per observable change of this node's view, each change publishes one
/// state, and a view nothing has changed of leaves everything as it is.
pub proof fn the_version_rises_by_one_per_change(
    receptionist: ReceptionistModel,
    members: Seq<Member>,
    unreachable: Seq<Member>,
)
    requires
        receptionist.state.version < u64::MAX,
    ensures
        ({
            let after = receptionist.observing(members, unreachable);
            let next = receptionist.next_state(members, unreachable);
            if receptionist.transitions(members, unreachable).len() == 0 {
                after == receptionist
            } else {
                &&& after.state == next
                &&& after.state.version == receptionist.state.version + 1
                &&& after.settlement == after.verdict()
                &&& states_of(after.published) == states_of(receptionist.published).push(next)
            }
        }),
        members == receptionist.state.members && unreachable == receptionist.state.unreachable
            ==> receptionist.observing(members, unreachable) == receptionist,
{
    let transitions = receptionist.transitions(members, unreachable);
    let next = receptionist.next_state(members, unreachable);
    if transitions.len() > 0 {
        let carried = receptionist.carried_out(transitions);
        lemma_carrying_publishes_no_state(receptionist, transitions);
        let published = ReceptionistModel {
            state: next,
            published: carried.published.push(PublishedChangeModel::State(next)),
            ..carried
        };
        lemma_resettled_publishes_no_state(published);
        reveal(Seq::filter);
        assert(published.published.drop_last() =~= carried.published);
        assert(states_of(published.published) =~= states_of(carried.published).push(next));
    }
    if members == receptionist.state.members && unreachable == receptionist.state.unreachable {
        a_state_does_not_differ_from_itself(receptionist.state);
        assert(transitions == receptionist.state.diff(receptionist.state));
    }
}

/// Observing a view twice publishes it once.
pub proof fn a_view_is_published_once(
    receptionist: ReceptionistModel,
    members: Seq<Member>,
    unreachable: Seq<Member>,
)
    requires
        receptionist.transitions(members, unreachable).len() > 0,
    ensures
        ({
            let after = receptionist.observing(members, unreachable);
            after.observing(members, unreachable) == after
        }),
{
    let after = receptionist.observing(members, unreachable);
    lemma_carrying_publishes_no_state(
        receptionist,
        receptionist.transitions(members, unreachable),
    );
    a_state_does_not_differ_from_itself(after.state);
    assert(after.transitions(members, unreachable) == after.state.diff(after.state));
}

/// The Up members no walk over unbroken links leads to from this node.
pub open spec fn is_out_of_reach(table: ReachabilityModel, up: Seq<NodeId>) -> spec_fn(
    Member,
) -> bool {
    |m: Member|
        m.state == MemberState::Up && !is_connected(table.observations, up, table.node, m.node)
}

proof fn lemma_marked_are_out_of_reach(
    table: ReachabilityModel,
    members: Seq<Member>,
    at: u128,
    k: int,
)
    requires
        0 <= k <= members.len(),
    ensures
        members.take(k).filter(table.marked(up_of(members), at).is_marked())
            == members.take(k).filter(is_out_of_reach(table, up_of(members))),
    decreases k,
{
    let p = table.marked(up_of(members), at).is_marked();
    let q = is_out_of_reach(table, up_of(members));
    if k == 0 {
        lemma_filter_start(members, p);
        lemma_filter_start(members, q);
    } else {
        let m = members[k - 1];
        lemma_marked_are_out_of_reach(table, members, at, k - 1);
        lemma_filter_step(members, p, k - 1);
        lemma_filter_step(members, q, k - 1);
        if m.state == MemberState::Up {
            let is_up = |m: Member| m.state == MemberState::Up;
            assert(members.contains(m));
            lemma_filter_contains(members, is_up, m);
            let i = members.filter(is_up).index_of(m);
            assert(up_of(members)[i] == m.node);
        }
    }
}

proof fn lemma_out_of_reach(table: ReachabilityModel, members: Seq<Member>, m: Member)
    requires
        members.filter(is_out_of_reach(table, up_of(members))).contains(m),
    ensures
        m.state == MemberState::Up,
        m.node != table.node,
        members.contains(m),
{
    lemma_filter_contains(members, is_out_of_reach(table, up_of(members)), m);
    let stay = seq![table.node];
    assert(is_walk(table.observations, up_of(members), table.node, stay));
    assert(stay.last() == table.node);
}

/// The unreachable list is a part of the members, in their order: Up ones, and never this node.
pub open spec fn is_coherent(state: ClusterStateModel) -> bool {
    &&& exists|keep: spec_fn(Member) -> bool| state.unreachable == #[trigger] state.members.filter(keep)
    &&& forall|i: int|
        0 <= i < state.unreachable.len() ==> {
            &&& (#[trigger] state.unreachable[i]).state == MemberState::Up
            &&& state.unreachable[i].node != state.this
            &&& state.members.contains(state.unreachable[i])
        }
}

/// The unreachable list of a state a round publishes holds exactly the Up members outside this
/// node's component of the reachability graph, in the order of the members, and never this node.
pub proof fn a_published_state_lists_who_is_out_of_reach<H, S, R, D: FailureDetector>(
    endpoint: EndpointModel<H, S, R, D>,
    receptionist: ReceptionistModel,
    at: u128,
)
    requires
        receptionist.node == endpoint.reachability.node,
    ensures
        ({
            let members = endpoint.membership.listed();
            let table = endpoint.rounded(at).reachability;
            let unreachable = outside_of(table.unreachable(members));
            let state = receptionist.observing(members, unreachable).state;
            receptionist.transitions(members, unreachable).len() > 0 ==> {
                &&& state.members == members
                &&& state.unreachable == members.filter(is_out_of_reach(table, up_of(members)))
                &&& is_coherent(state)
            }
        }),
{
    let members = endpoint.membership.listed();
    let before = endpoint.gossiped_and_observed(at).reachability;
    let table = endpoint.rounded(at).reachability;
    lemma_observed_keeps(
        endpoint.fanned_out(endpoint.gossip(), Towards::NotDisconnected),
        endpoint.membership.up_peers(),
        at,
    );
    assert(table == before.marked(up_of(members), at));
    lemma_marked_are_out_of_reach(before, members, at, members.len() as int);
    assert(members.take(members.len() as int) =~= members);
    let out = members.filter(is_out_of_reach(table, up_of(members)));
    assert(is_out_of_reach(table, up_of(members)) =~= is_out_of_reach(before, up_of(members)));
    let unreachable = outside_of(table.unreachable(members));
    assert(unreachable =~= out);
    lemma_carrying_publishes_no_state(
        receptionist,
        receptionist.transitions(members, unreachable),
    );
    assert forall|i: int| 0 <= i < out.len() implies {
        &&& (#[trigger] out[i]).state == MemberState::Up
        &&& out[i].node != receptionist.node
        &&& members.contains(out[i])
    } by {
        assert(out.contains(out[i]));
        lemma_out_of_reach(table, members, out[i]);
    }
}

/// Whatever the rounds find, every state a receptionist of this node publishes is coherent: one
/// which is follows one which is, and so is the first, which lists nobody as unreachable.
pub proof fn every_published_state_is_coherent<H, S, R, D: FailureDetector>(
    endpoint: EndpointModel<H, S, R, D>,
    receptionist: ReceptionistModel,
    at: u128,
)
    requires
        receptionist.node == endpoint.reachability.node,
        receptionist.state.unreachable.len() == 0 || is_coherent(receptionist.state),
    ensures
        is_coherent(receptionist.state),
        ({
            let members = endpoint.membership.listed();
            let unreachable = outside_of(endpoint.rounded(at).reachability.unreachable(members));
            is_coherent(receptionist.observing(members, unreachable).state)
        }),
{
    let state = receptionist.state;
    if state.unreachable.len() == 0 {
        let nobody = |m: Member| false;
        lemma_filter_none(state.members, nobody);
        assert(state.unreachable =~= state.members.filter(nobody));
    }
    a_published_state_lists_who_is_out_of_reach(endpoint, receptionist, at);
}

/// A member which came up has its set shown if it was held back, one which went down loses those of
/// every incarnation its death covers, and no other transition touches the sets.
pub proof fn the_sets_follow_the_members(
    receptionist: ReceptionistModel,
    transition: Transition,
    other: NodeId,
)
    ensures
        ({
            let after = receptionist.carrying(transition);
            let held = receptionist.replicas.dom().contains(other);
            let replica = receptionist.replicas[other];
            &&& transition matches Transition::Up(member) ==> {
                &&& after.replicas.dom().contains(other) == held
                &&& held && other != member.node ==> after.replicas[other] == replica
                &&& held && other == member.node ==> after.replicas[other] == (ReplicaModel {
                    visible: true,
                    ..replica
                })
            }
            &&& transition matches Transition::Down(member) ==> {
                &&& after.replicas.dom().contains(other) <==> held && !(other.addr
                    == member.node.addr && other.incarnation.0 <= member.node.incarnation.0)
                &&& after.replicas.dom().contains(other) ==> after.replicas[other] == replica
            }
            &&& transition is Forgotten || transition is Unreachable || transition is Reachable
                ==> after == receptionist
        }),
{
}

/// A view which differs from the state is published as the next one: its transitions are carried out
/// and it is the state from then on. One which does not differ leaves everything as it is.
pub proof fn a_view_is_published_where_it_differs(
    receptionist: ReceptionistModel,
    members: Seq<Member>,
    unreachable: Seq<Member>,
)
    requires
        receptionist.state.version < u64::MAX,
    ensures
        ({
            let after = receptionist.observing(members, unreachable);
            let state = ClusterStateModel {
                version: (receptionist.state.version + 1) as u64,
                this: receptionist.node,
                members,
                unreachable,
            };
            let transitions = state.diff(receptionist.state);
            &&& transitions.len() == 0 ==> after == receptionist
            &&& transitions.len() > 0 ==> after == receptionist.carried_out(
                transitions,
            ).publishing(state)
        }),
{
}

} // verus!
