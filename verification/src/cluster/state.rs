//! This node's view of the cluster as a versioned value, what changed between two of them, and the
//! subscription which never skips a change silently.

use vstd::prelude::*;

use crate::addr::SocketAddr;
use crate::cluster::membership::{Member, MemberState};
use crate::cluster::receptionist::Settlement;
use crate::ids::{Incarnation, NodeId};
use crate::seqs::{first, lemma_contains_add, lemma_filter_contains, lemma_filter_no_duplicates,
    lemma_filter_start, lemma_filter_step, lemma_first_absent, lemma_first_found};

verus! {

/// A versioned snapshot of this node's view of the cluster: the member list and the Up members
/// this node currently derives as unreachable, both of the same version, plus this node's own
/// identity.
#[derive(Debug, PartialEq, Eq)]
pub struct ClusterState {
    pub version: u64,
    pub this: NodeId,
    pub members: Vec<Member>,
    pub unreachable: Vec<Member>,
}

/// A [ClusterState] by value.
#[verifier::ext_equal]
pub ghost struct ClusterStateModel {
    pub version: u64,
    pub this: NodeId,
    pub members: Seq<Member>,
    pub unreachable: Seq<Member>,
}

impl View for ClusterState {
    type V = ClusterStateModel;

    open spec fn view(&self) -> ClusterStateModel {
        ClusterStateModel {
            version: self.version,
            this: self.this,
            members: self.members@,
            unreachable: self.unreachable@,
        }
    }
}

/// One transition between two consecutive states, see [ClusterState::diff].
#[derive(Debug, Clone, Copy, PartialEq, Eq, Structural)]
pub enum Transition {
    /// The member is listed Up, having not been listed before.
    Up(Member),
    /// The member is listed Down, having been listed Up or not at all before.
    Down(Member),
    /// The member's Down entry was swept after its retention.
    Forgotten(Member),
    /// The Up member became unreachable.
    Unreachable(Member),
    /// The Up member became reachable again.
    Reachable(Member),
}

impl Transition {
    pub open spec fn spec_member(self) -> Member {
        match self {
            Transition::Up(member) => member,
            Transition::Down(member) => member,
            Transition::Forgotten(member) => member,
            Transition::Unreachable(member) => member,
            Transition::Reachable(member) => member,
        }
    }

    /// The member the transition is about.
    pub fn member(&self) -> (member: &Member)
        ensures
            *member == self.spec_member(),
    {
        match self {
            Transition::Up(member) => member,
            Transition::Down(member) => member,
            Transition::Forgotten(member) => member,
            Transition::Unreachable(member) => member,
            Transition::Reachable(member) => member,
        }
    }
}

pub open spec fn listed_as(member: Member) -> Transition {
    match member.state {
        MemberState::Up => Transition::Up(member),
        MemberState::Down => Transition::Down(member),
    }
}

pub open spec fn is_missing(from: Seq<Member>) -> spec_fn(Member) -> bool {
    |m: Member| !from.contains(m)
}

pub open spec fn is_forgotten(from: Seq<Member>) -> spec_fn(Member) -> bool {
    |m: Member| !from.contains(m) && m.state == MemberState::Down
}

pub open spec fn is_back(unreachable: Seq<Member>, members: Seq<Member>) -> spec_fn(Member) -> bool {
    |m: Member| !unreachable.contains(m) && members.contains(m)
}

pub open spec fn is_listed_up() -> spec_fn(Member) -> bool {
    |m: Member| m.state == MemberState::Up
}

impl ClusterStateModel {
    pub open spec fn this_member(self) -> Option<Member> {
        first(self.members, |m: Member| m.node == self.this)
    }

    pub open spec fn up(self) -> Seq<Member> {
        self.members.filter(is_listed_up())
    }

    /// The entries which appeared, the Down entries which disappeared, and the members which entered
    /// and left the unreachable set, in this order.
    pub open spec fn diff(self, previous: ClusterStateModel) -> Seq<Transition> {
        self.members.filter(is_missing(previous.members)).map_values(|m: Member| listed_as(m))
            + previous.members.filter(is_forgotten(self.members)).map_values(
            |m: Member| Transition::Forgotten(m),
        ) + self.unreachable.filter(is_missing(previous.unreachable)).map_values(
            |m: Member| Transition::Unreachable(m),
        ) + previous.unreachable.filter(is_back(self.unreachable, self.members)).map_values(
            |m: Member| Transition::Reachable(m),
        )
    }
}

/// Whether the member is among the members.
pub fn has_member(members: &Vec<Member>, member: Member) -> (r: bool)
    ensures
        r == members@.contains(member),
{
    let mut i: usize = 0;
    while i < members.len()
        invariant
            i <= members@.len(),
            forall|j: int| 0 <= j < i ==> #[trigger] members@[j] != member,
        decreases members@.len() - i,
    {
        if members[i] == member {
            return true;
        }
        i = i + 1;
    }
    false
}

/// The members, one by one.
pub fn copy_members(members: &Vec<Member>) -> (copy: Vec<Member>)
    ensures
        copy@ == members@,
{
    let mut copy: Vec<Member> = Vec::new();
    let mut i: usize = 0;
    while i < members.len()
        invariant
            i <= members@.len(),
            copy@ == members@.take(i as int),
        decreases members@.len() - i,
    {
        copy.push(members[i]);
        i = i + 1;
        assert(copy@ =~= members@.take(i as int));
    }
    assert(members@.take(i as int) =~= members@);
    copy
}

impl ClusterState {
    pub fn new(this: NodeId, version: u64, members: Vec<Member>, unreachable: Vec<Member>) -> (state:
        Self)
        ensures
            state@ == (ClusterStateModel {
                version,
                this,
                members: members@,
                unreachable: unreachable@,
            }),
    {
        ClusterState { version, this, members, unreachable }
    }

    /// Strictly increasing by one per observable change of this node's view.
    pub fn version(&self) -> (version: u64)
        ensures
            version == self@.version,
    {
        self.version
    }

    /// The address this node advertises.
    pub fn this_addr(&self) -> (addr: SocketAddr)
        ensures
            addr == self@.this.addr,
    {
        self.this.addr
    }

    /// This node's incarnation, which tells its own entry from a predecessor's at the same
    /// address.
    pub fn this_incarnation(&self) -> (incarnation: Incarnation)
        ensures
            incarnation == self@.this.incarnation,
    {
        self.this.incarnation
    }

    /// This node's own entry, none once its Down entry has been swept.
    pub fn this_member(&self) -> (member: Option<&Member>)
        ensures
            member is Some == self@.this_member() is Some,
            member matches Some(m) ==> self@.this_member() == Some(*m),
    {
        let ghost p = |m: Member| m.node == self@.this;
        let mut i: usize = 0;
        while i < self.members.len()
            invariant
                i <= self.members@.len(),
                p == (|m: Member| m.node == self@.this),
                forall|j: int| 0 <= j < i ==> !p(#[trigger] self.members@[j]),
            decreases self.members@.len() - i,
        {
            if self.members[i].node == self.this {
                proof {
                    lemma_first_found(self.members@, p, i as int);
                }
                return Some(&self.members[i]);
            }
            i = i + 1;
        }
        proof {
            lemma_first_absent(self.members@, p);
        }
        None
    }

    /// The transitions from `previous` to this value, member by member: an entry which appeared is
    /// Up or Down by its state, a Down entry which disappeared is Forgotten, an entry which entered
    /// the unreachable set is Unreachable, and one which left it while still listed Up is Reachable;
    /// one downed instead yields its Down alone.
    pub fn diff(&self, previous: &ClusterState) -> (transitions: Vec<Transition>)
        ensures
            transitions@ == self@.diff(previous@),
    {
        let mut transitions: Vec<Transition> = Vec::new();
        let ghost appeared = is_missing(previous.members@);
        let ghost listed = |m: Member| listed_as(m);
        let mut i: usize = 0;
        proof {
            lemma_filter_start(self.members@, appeared);
            assert(transitions@ =~= self.members@.take(0).filter(appeared).map_values(listed));
        }
        while i < self.members.len()
            invariant
                i <= self.members@.len(),
                appeared == is_missing(previous.members@),
                listed == (|m: Member| listed_as(m)),
                transitions@ =~= self.members@.take(i as int).filter(appeared).map_values(listed),
            decreases self.members@.len() - i,
        {
            let member = self.members[i];
            proof {
                lemma_filter_step(self.members@, appeared, i as int);
            }
            if !has_member(&previous.members, member) {
                let transition = match member.state {
                    MemberState::Up => Transition::Up(member),
                    MemberState::Down => Transition::Down(member),
                };
                transitions.push(transition);
            }
            i = i + 1;
        }
        let ghost one = self.members@.filter(appeared).map_values(listed);
        let ghost gone = is_forgotten(self.members@);
        let ghost swept = |m: Member| Transition::Forgotten(m);
        i = 0;
        proof {
            lemma_filter_start(self.members@, appeared);
            lemma_filter_start(previous.members@, gone);
            assert(transitions@ =~= one + previous.members@.take(0).filter(gone).map_values(swept));
        }
        while i < previous.members.len()
            invariant
                i <= previous.members@.len(),
                gone == is_forgotten(self.members@),
                swept == (|m: Member| Transition::Forgotten(m)),
                transitions@ =~= one + previous.members@.take(i as int).filter(gone).map_values(
                    swept,
                ),
            decreases previous.members@.len() - i,
        {
            let member = previous.members[i];
            proof {
                lemma_filter_step(previous.members@, gone, i as int);
            }
            if !has_member(&self.members, member) && member.state == MemberState::Down {
                transitions.push(Transition::Forgotten(member));
            }
            i = i + 1;
        }
        let ghost two = one + previous.members@.filter(gone).map_values(swept);
        let ghost lost = is_missing(previous.unreachable@);
        let ghost entered = |m: Member| Transition::Unreachable(m);
        i = 0;
        proof {
            lemma_filter_start(previous.members@, gone);
            lemma_filter_start(self.unreachable@, lost);
            assert(transitions@ =~= two + self.unreachable@.take(0).filter(lost).map_values(
                entered,
            ));
        }
        while i < self.unreachable.len()
            invariant
                i <= self.unreachable@.len(),
                lost == is_missing(previous.unreachable@),
                entered == (|m: Member| Transition::Unreachable(m)),
                transitions@ =~= two + self.unreachable@.take(i as int).filter(lost).map_values(
                    entered,
                ),
            decreases self.unreachable@.len() - i,
        {
            let member = self.unreachable[i];
            proof {
                lemma_filter_step(self.unreachable@, lost, i as int);
            }
            if !has_member(&previous.unreachable, member) {
                transitions.push(Transition::Unreachable(member));
            }
            i = i + 1;
        }
        let ghost three = two + self.unreachable@.filter(lost).map_values(entered);
        let ghost back = is_back(self.unreachable@, self.members@);
        let ghost left = |m: Member| Transition::Reachable(m);
        i = 0;
        proof {
            lemma_filter_start(self.unreachable@, lost);
            lemma_filter_start(previous.unreachable@, back);
            assert(transitions@ =~= three + previous.unreachable@.take(0).filter(back).map_values(
                left,
            ));
        }
        while i < previous.unreachable.len()
            invariant
                i <= previous.unreachable@.len(),
                back == is_back(self.unreachable@, self.members@),
                left == (|m: Member| Transition::Reachable(m)),
                transitions@ =~= three + previous.unreachable@.take(i as int).filter(
                    back,
                ).map_values(left),
            decreases previous.unreachable@.len() - i,
        {
            let member = previous.unreachable[i];
            proof {
                lemma_filter_step(previous.unreachable@, back, i as int);
            }
            if !has_member(&self.unreachable, member) && has_member(&self.members, member) {
                transitions.push(Transition::Reachable(member));
            }
            i = i + 1;
        }
        proof {
            lemma_filter_start(previous.unreachable@, back);
        }
        transitions
    }

    /// The members as this node sees them, this node included, ordered by address and incarnation.
    pub fn members(&self) -> (members: &[Member])
        ensures
            members@ == self@.members,
    {
        self.members.as_slice()
    }

    /// The Up members outside this node's component of the reachability graph, in the order of the
    /// members.
    pub fn unreachable(&self) -> (members: &[Member])
        ensures
            members@ == self@.unreachable,
    {
        self.unreachable.as_slice()
    }

    /// The Up members, this node included.
    pub fn up(&self) -> (members: Vec<Member>)
        ensures
            members@ == self@.up(),
    {
        let ghost p = is_listed_up();
        let mut up: Vec<Member> = Vec::new();
        let mut i: usize = 0;
        proof {
            lemma_filter_start(self.members@, p);
        }
        while i < self.members.len()
            invariant
                i <= self.members@.len(),
                p == is_listed_up(),
                up@ == self.members@.take(i as int).filter(p),
            decreases self.members@.len() - i,
        {
            proof {
                lemma_filter_step(self.members@, p, i as int);
            }
            if self.members[i].state == MemberState::Up {
                up.push(self.members[i]);
            }
            i = i + 1;
        }
        proof {
            lemma_filter_start(self.members@, p);
        }
        up
    }

    /// Another value of the same state.
    pub fn copy(&self) -> (state: ClusterState)
        ensures
            state@ == self@,
    {
        ClusterState {
            version: self.version,
            this: self.this,
            members: copy_members(&self.members),
            unreachable: copy_members(&self.unreachable),
        }
    }
}

/// What one change of the cluster publishes; a verdict's sequence orders verdicts for a subscriber
/// which took a snapshot.
#[derive(Debug, PartialEq, Eq)]
pub enum PublishedChange {
    State(ClusterState),
    Settled { settlement: Settlement, seq: u64 },
}

#[verifier::ext_equal]
pub ghost enum PublishedChangeModel {
    State(ClusterStateModel),
    Settled { settlement: Settlement, seq: u64 },
}

impl View for PublishedChange {
    type V = PublishedChangeModel;

    open spec fn view(&self) -> PublishedChangeModel {
        match *self {
            PublishedChange::State(state) => PublishedChangeModel::State(state@),
            PublishedChange::Settled { settlement, seq } => PublishedChangeModel::Settled {
                settlement,
                seq,
            },
        }
    }
}

/// One item of a [Changes] subscription: a whole cluster state per version, a settled verdict per
/// change of it, or the loss a subscriber which fell behind is told about before it is handed the
/// current state and verdict.
#[derive(Debug, PartialEq, Eq)]
pub enum Change {
    /// The cluster state at a new version.
    State(ClusterState),
    /// The receptionist's verdict flipped, or is repeated after a gap.
    Settled(Settlement),
    /// The subscriber fell behind: this many changes were overwritten before it read them.
    Gap { dropped: u64 },
}

#[verifier::ext_equal]
pub ghost enum ChangeModel {
    State(ClusterStateModel),
    Settled(Settlement),
    Gap { dropped: u64 },
}

impl View for Change {
    type V = ChangeModel;

    open spec fn view(&self) -> ChangeModel {
        match *self {
            Change::State(state) => ChangeModel::State(state@),
            Change::Settled(settlement) => ChangeModel::Settled(settlement),
            Change::Gap { dropped } => ChangeModel::Gap { dropped },
        }
    }
}

/// The coordinated snapshot a subscriber starts from and recovers to: the current state, the
/// verdict for it and that verdict's sequence.
#[derive(Debug, PartialEq, Eq)]
pub struct ChangesSnapshot {
    pub state: ClusterState,
    pub settlement: Settlement,
    pub seq: u64,
}

/// What the channel behind a subscription hands out.
#[derive(Debug, PartialEq, Eq)]
pub enum Received {
    /// The next published change.
    Published(PublishedChange),
    /// The subscriber fell behind by so many changes. The snapshot is taken after the loss was
    /// observed, so everything the channel still holds is older.
    Lagged { dropped: u64, snapshot: ChangesSnapshot },
}

/// Every version of this node's cluster state and every flip of the receptionist's verdict, in
/// publication order. The first two items are the current state and its verdict, and a gap is
/// always followed by the current pair.
#[derive(Debug)]
pub struct Changes {
    pub queued: Vec<Change>,
    pub last_version: u64,
    pub last_seq: u64,
}

/// A [Changes] by value.
#[verifier::ext_equal]
pub ghost struct ChangesModel {
    pub queued: Seq<ChangeModel>,
    pub last_version: u64,
    pub last_seq: u64,
}

pub open spec fn change_views(changes: Seq<Change>) -> Seq<ChangeModel> {
    changes.map_values(|change: Change| change@)
}

impl View for Changes {
    type V = ChangesModel;

    open spec fn view(&self) -> ChangesModel {
        ChangesModel {
            queued: change_views(self.queued@),
            last_version: self.last_version,
            last_seq: self.last_seq,
        }
    }
}

impl ChangesModel {
    pub open spec fn recovered(self, snapshot: ChangesSnapshot) -> ChangesModel {
        ChangesModel {
            queued: self.queued.push(ChangeModel::State(snapshot.state@)).push(
                ChangeModel::Settled(snapshot.settlement),
            ),
            last_version: snapshot.state@.version,
            last_seq: snapshot.seq,
        }
    }

    /// The subscription and what it hands out for what it received; nothing for what the snapshot
    /// it took represents already.
    pub open spec fn received(self, received: Received) -> (ChangesModel, Option<ChangeModel>) {
        match received {
            Received::Published(PublishedChange::State(state)) => {
                if state@.version > self.last_version {
                    (
                        ChangesModel { last_version: state@.version, ..self },
                        Some(ChangeModel::State(state@)),
                    )
                } else {
                    (self, None)
                }
            },
            Received::Published(PublishedChange::Settled { settlement, seq }) => {
                if seq > self.last_seq {
                    (
                        ChangesModel { last_seq: seq, ..self },
                        Some(ChangeModel::Settled(settlement)),
                    )
                } else {
                    (self, None)
                }
            },
            Received::Lagged { dropped, snapshot } => {
                let gapped = ChangesModel {
                    queued: self.queued.push(ChangeModel::Gap { dropped }),
                    ..self
                }.recovered(snapshot);
                (
                    ChangesModel { queued: gapped.queued.skip(1), ..gapped },
                    Some(gapped.queued[0]),
                )
            },
        }
    }
}

impl Changes {
    /// A subscription which starts from the snapshot. The channel must be subscribed to before the
    /// snapshot is taken.
    pub fn new(snapshot: ChangesSnapshot) -> (changes: Self)
        ensures
            changes@ == (ChangesModel {
                queued: Seq::empty(),
                last_version: 0,
                last_seq: 0,
            }).recovered(snapshot),
    {
        let mut changes = Changes { queued: Vec::new(), last_version: 0, last_seq: 0 };
        assert(changes@.queued =~= Seq::empty());
        changes.recover(snapshot);
        changes
    }

    fn recover(&mut self, snapshot: ChangesSnapshot)
        ensures
            final(self)@ == old(self)@.recovered(snapshot),
    {
        let ghost before = self@.queued;
        let version: u64 = snapshot.state.version;
        self.last_version = version;
        self.last_seq = snapshot.seq;
        self.queued.push(Change::State(snapshot.state));
        self.queued.push(Change::Settled(snapshot.settlement));
        assert(self@.queued =~= before.push(ChangeModel::State(snapshot.state@)).push(
            ChangeModel::Settled(snapshot.settlement),
        ));
    }

    /// The next change which needs nothing of the channel.
    pub fn next_queued(&mut self) -> (change: Option<Change>)
        ensures
            old(self)@.queued.len() == 0 ==> change is None && final(self)@ == old(self)@,
            old(self)@.queued.len() > 0 ==> {
                &&& change matches Some(c) && c@ == old(self)@.queued[0]
                &&& final(self)@ == (ChangesModel {
                    queued: old(self)@.queued.skip(1),
                    ..old(self)@
                })
            },
    {
        if self.queued.len() == 0 {
            None
        } else {
            let ghost before = self@.queued;
            let change = self.queued.remove(0);
            assert(self@.queued =~= before.skip(1));
            Some(change)
        }
    }

    /// What is handed out for what the channel handed out, nothing for what was represented by the
    /// snapshot already.
    pub fn next(&mut self, received: Received) -> (change: Option<Change>)
        ensures
            final(self)@ == old(self)@.received(received).0,
            change is Some == old(self)@.received(received).1 is Some,
            change matches Some(c) ==> old(self)@.received(received).1 == Some(c@),
    {
        match received {
            Received::Published(PublishedChange::State(state)) => {
                if state.version > self.last_version {
                    self.last_version = state.version;
                    Some(Change::State(state))
                } else {
                    None
                }
            },
            Received::Published(PublishedChange::Settled { settlement, seq }) => {
                if seq > self.last_seq {
                    self.last_seq = seq;
                    Some(Change::Settled(settlement))
                } else {
                    None
                }
            },
            Received::Lagged { dropped, snapshot } => {
                let ghost before = self@.queued;
                self.queued.push(Change::Gap { dropped });
                assert(self@.queued =~= before.push(ChangeModel::Gap { dropped }));
                self.recover(snapshot);
                self.next_queued()
            },
        }
    }
}

/// The cluster state cannot be observed.
#[derive(Debug, Clone, Copy, PartialEq, Eq, Structural)]
pub enum ClusterStateError {
    /// The remoting endpoint has not been started.
    EndpointNotStarted,
}

/// Nothing changes between a state and itself.
pub proof fn a_state_does_not_differ_from_itself(state: ClusterStateModel)
    ensures
        state.diff(state) == Seq::<Transition>::empty(),
{
    assert forall|i: int| 0 <= i < state.members.len() implies !is_missing(state.members)(
        #[trigger] state.members[i],
    ) by {
        assert(state.members.contains(state.members[i]));
    }
    crate::seqs::lemma_filter_none(state.members, is_missing(state.members));
    assert forall|i: int| 0 <= i < state.members.len() implies !is_forgotten(state.members)(
        #[trigger] state.members[i],
    ) by {
        assert(state.members.contains(state.members[i]));
    }
    crate::seqs::lemma_filter_none(state.members, is_forgotten(state.members));
    assert forall|i: int| 0 <= i < state.unreachable.len() implies !is_missing(state.unreachable)(
        #[trigger] state.unreachable[i],
    ) by {
        assert(state.unreachable.contains(state.unreachable[i]));
    }
    crate::seqs::lemma_filter_none(state.unreachable, is_missing(state.unreachable));
    assert forall|i: int| 0 <= i < state.unreachable.len() implies !is_back(
        state.unreachable,
        state.members,
    )(#[trigger] state.unreachable[i]) by {
        assert(state.unreachable.contains(state.unreachable[i]));
    }
    crate::seqs::lemma_filter_none(state.unreachable, is_back(state.unreachable, state.members));
    assert(state.diff(state) =~= Seq::<Transition>::empty());
}

/// A state handed out from the channel is newer than every one handed out before it, and so is a
/// verdict.
pub proof fn changes_move_forward(changes: ChangesModel, published: PublishedChange)
    ensures
        ({
            let (after, change) = changes.received(Received::Published(published));
            &&& after.last_version >= changes.last_version
            &&& after.last_seq >= changes.last_seq
            &&& change matches Some(ChangeModel::State(state)) ==> state.version
                > changes.last_version && after.last_version == state.version
            &&& change matches Some(ChangeModel::Settled(_)) ==> after.last_seq > changes.last_seq
            &&& !(change matches Some(ChangeModel::Gap { .. }))
        }),
{
}

/// A subscriber which fell behind is told so and handed the current state and verdict next, and
/// nothing the snapshot represents is handed out after it.
pub proof fn a_gap_is_followed_by_the_current_pair(
    changes: ChangesModel,
    dropped: u64,
    snapshot: ChangesSnapshot,
    published: PublishedChange,
)
    requires
        changes.queued.len() == 0,
    ensures
        ({
            let (after, change) = changes.received(Received::Lagged { dropped, snapshot });
            &&& change == Some(ChangeModel::Gap { dropped })
            &&& after.queued == seq![
                ChangeModel::State(snapshot.state@),
                ChangeModel::Settled(snapshot.settlement),
            ]
            &&& (published matches PublishedChange::State(state) && state@.version
                <= snapshot.state@.version) ==> after.received(
                Received::Published(published),
            ).1 is None
            &&& (published matches PublishedChange::Settled { seq, .. } && seq <= snapshot.seq)
                ==> after.received(Received::Published(published)).1 is None
        }),
{
    let (after, _) = changes.received(Received::Lagged { dropped, snapshot });
    assert(after.queued =~= seq![
        ChangeModel::State(snapshot.state@),
        ChangeModel::Settled(snapshot.settlement),
    ]);
}

proof fn lemma_reported(
    s: Seq<Member>,
    p: spec_fn(Member) -> bool,
    f: spec_fn(Member) -> Transition,
    t: Transition,
)
    ensures
        s.filter(p).map_values(f).contains(t) == (exists|m: Member| #[trigger]
            s.contains(m) && p(m) && f(m) == t),
{
    let reported = s.filter(p).map_values(f);
    if reported.contains(t) {
        let i = reported.index_of(t);
        let m = s.filter(p)[i];
        assert(s.filter(p).contains(m));
        lemma_filter_contains(s, p, m);
        assert(f(m) == t);
    }
    if exists|m: Member| #[trigger] s.contains(m) && p(m) && f(m) == t {
        let m = choose|m: Member| #[trigger] s.contains(m) && p(m) && f(m) == t;
        lemma_filter_contains(s, p, m);
        let i = s.filter(p).index_of(m);
        assert(reported[i] == t);
    }
}

/// A diff reports exactly what happened to each member: listed Up or Down where it was not listed so
/// before, forgotten where its Down entry is gone, unreachable where it was not before, and reachable
/// where it was unreachable, is not anymore and is still listed.
pub proof fn a_diff_tells_what_happened(
    current: ClusterStateModel,
    previous: ClusterStateModel,
    m: Member,
)
    ensures
        current.diff(previous).contains(Transition::Up(m)) == (current.members.contains(m)
            && !previous.members.contains(m) && m.state == MemberState::Up),
        current.diff(previous).contains(Transition::Down(m)) == (current.members.contains(m)
            && !previous.members.contains(m) && m.state == MemberState::Down),
        current.diff(previous).contains(Transition::Forgotten(m)) == (previous.members.contains(m)
            && !current.members.contains(m) && m.state == MemberState::Down),
        current.diff(previous).contains(Transition::Unreachable(m)) == (
        current.unreachable.contains(m) && !previous.unreachable.contains(m)),
        current.diff(previous).contains(Transition::Reachable(m)) == (
        previous.unreachable.contains(m) && !current.unreachable.contains(m)
            && current.members.contains(m)),
{
    let listed = |m: Member| listed_as(m);
    let swept = |m: Member| Transition::Forgotten(m);
    let entered = |m: Member| Transition::Unreachable(m);
    let left = |m: Member| Transition::Reachable(m);
    let a = current.members.filter(is_missing(previous.members)).map_values(listed);
    let b = previous.members.filter(is_forgotten(current.members)).map_values(swept);
    let c = current.unreachable.filter(is_missing(previous.unreachable)).map_values(entered);
    let d = previous.unreachable.filter(
        is_back(current.unreachable, current.members),
    ).map_values(left);
    assert(current.diff(previous) == a + b + c + d);
    assert forall|t: Transition| #[trigger] current.diff(previous).contains(t) == (a.contains(t)
        || b.contains(t) || c.contains(t) || d.contains(t)) by {
        lemma_contains_add(a + b + c, d, t);
        lemma_contains_add(a + b, c, t);
        lemma_contains_add(a, b, t);
    }
    assert forall|t: Transition|
        a.contains(t) == (exists|m: Member| #[trigger]
            current.members.contains(m) && !previous.members.contains(m) && listed_as(m) == t)
            && b.contains(t) == (exists|m: Member| #[trigger]
            previous.members.contains(m) && !current.members.contains(m) && m.state
                == MemberState::Down && Transition::Forgotten(m) == t) && c.contains(t) == (exists|
            m: Member,
        | #[trigger]
            current.unreachable.contains(m) && !previous.unreachable.contains(m)
                && Transition::Unreachable(m) == t) && d.contains(t) == (exists|m: Member|
            #[trigger]
            previous.unreachable.contains(m) && !current.unreachable.contains(m)
                && current.members.contains(m) && Transition::Reachable(m) == t) by {
        lemma_reported(current.members, is_missing(previous.members), listed, t);
        lemma_reported(previous.members, is_forgotten(current.members), swept, t);
        lemma_reported(current.unreachable, is_missing(previous.unreachable), entered, t);
        lemma_reported(
            previous.unreachable,
            is_back(current.unreachable, current.members),
            left,
            t,
        );
    }
    assert(a.contains(Transition::Up(m)) == (current.members.contains(m)
        && !previous.members.contains(m) && m.state == MemberState::Up));
    assert(a.contains(Transition::Down(m)) == (current.members.contains(m)
        && !previous.members.contains(m) && m.state == MemberState::Down));
}

/// Applying a diff to the previous state gives the current one: the unreachable set loses who is
/// reachable again or not listed anymore and gains who became unreachable, and so do the listed
/// entries, but for an Up entry replaced by a Down one.
pub proof fn a_diff_leads_to_the_current_state(
    current: ClusterStateModel,
    previous: ClusterStateModel,
    m: Member,
)
    requires
        forall|i: int|
            0 <= i < current.unreachable.len() ==> current.members.contains(
                #[trigger] current.unreachable[i],
            ),
    ensures
        current.unreachable.contains(m) == (current.diff(previous).contains(
            Transition::Unreachable(m),
        ) || (previous.unreachable.contains(m) && !current.diff(previous).contains(
            Transition::Reachable(m),
        ) && current.members.contains(m))),
        m.state == MemberState::Down ==> current.members.contains(m) == (current.diff(
            previous,
        ).contains(Transition::Down(m)) || (previous.members.contains(m) && !current.diff(
            previous,
        ).contains(Transition::Forgotten(m)))),
        m.state == MemberState::Up && current.members.contains(m) ==> current.diff(
            previous,
        ).contains(Transition::Up(m)) || previous.members.contains(m),
{
    a_diff_tells_what_happened(current, previous, m);
    if current.unreachable.contains(m) {
        let i = current.unreachable.index_of(m);
        assert(current.members.contains(current.unreachable[i]));
    }
}

/// Whom a transition is about, and the place of its kind: what is listed comes before what is
/// forgotten, then who became unreachable and then who is reachable again.
pub open spec fn place_of(transition: Transition) -> int {
    match transition {
        Transition::Up(_) => 0,
        Transition::Down(_) => 0,
        Transition::Forgotten(_) => 1,
        Transition::Unreachable(_) => 2,
        Transition::Reachable(_) => 3,
    }
}

/// A diff reports nothing twice, and its kinds come in order.
pub proof fn a_diff_is_in_order(current: ClusterStateModel, previous: ClusterStateModel)
    requires
        current.members.no_duplicates(),
        previous.members.no_duplicates(),
        current.unreachable.no_duplicates(),
        previous.unreachable.no_duplicates(),
    ensures
        current.diff(previous).no_duplicates(),
        forall|i: int, j: int|
            0 <= i < j < current.diff(previous).len() ==> place_of(
                #[trigger] current.diff(previous)[i],
            ) <= place_of(#[trigger] current.diff(previous)[j]),
{
    let a0 = current.members.filter(is_missing(previous.members));
    let b0 = previous.members.filter(is_forgotten(current.members));
    let c0 = current.unreachable.filter(is_missing(previous.unreachable));
    let d0 = previous.unreachable.filter(is_back(current.unreachable, current.members));
    lemma_filter_no_duplicates(current.members, is_missing(previous.members));
    lemma_filter_no_duplicates(previous.members, is_forgotten(current.members));
    lemma_filter_no_duplicates(current.unreachable, is_missing(previous.unreachable));
    lemma_filter_no_duplicates(
        previous.unreachable,
        is_back(current.unreachable, current.members),
    );
    let a = a0.map_values(|m: Member| listed_as(m));
    let b = b0.map_values(|m: Member| Transition::Forgotten(m));
    let c = c0.map_values(|m: Member| Transition::Unreachable(m));
    let d = d0.map_values(|m: Member| Transition::Reachable(m));
    let ab = a + b;
    let abc = ab + c;
    assert(current.diff(previous) == abc + d);
    assert(a.no_duplicates()) by {
        assert forall|i: int, j: int| 0 <= i < a.len() && 0 <= j < a.len() && i != j implies a[i]
            != a[j] by {
            assert(a0[i] != a0[j]);
            assert(a[i].spec_member() == a0[i]);
            assert(a[j].spec_member() == a0[j]);
        }
    }
    assert(ab.no_duplicates());
    assert(abc.no_duplicates());
    assert((abc + d).no_duplicates());
}

/// Nothing newer is withheld: a published state or verdict is handed out exactly if it is newer than
/// the last one of its kind, and is the last one from then on. What waits is not touched by it.
pub proof fn what_is_newer_is_handed_out(changes: ChangesModel, published: PublishedChange)
    ensures
        ({
            let (after, change) = changes.received(Received::Published(published));
            &&& after.queued == changes.queued
            &&& published matches PublishedChange::State(state) ==> {
                &&& after.last_seq == changes.last_seq
                &&& state@.version > changes.last_version ==> change == Some(
                    ChangeModel::State(state@),
                ) && after.last_version == state@.version
                &&& state@.version <= changes.last_version ==> change is None
                    && after.last_version == changes.last_version
            }
            &&& published matches PublishedChange::Settled { settlement, seq } ==> {
                &&& after.last_version == changes.last_version
                &&& seq > changes.last_seq ==> change == Some(ChangeModel::Settled(settlement))
                    && after.last_seq == seq
                &&& seq <= changes.last_seq ==> change is None && after.last_seq
                    == changes.last_seq
            }
        }),
{
}

/// The members up are those listed Up, in their order, and this node's entry is its own.
pub proof fn a_state_answers_for_its_members(state: ClusterStateModel, member: Member)
    ensures
        state.up() == state.members.filter(|m: Member| m.state == MemberState::Up),
        state.up().contains(member) <==> state.members.contains(member) && member.state
            == MemberState::Up,
        state.this_member() is Some <==> exists|i: int|
            0 <= i < state.members.len() && (#[trigger] state.members[i]).node == state.this,
        state.this_member() matches Some(own) ==> own.node == state.this
            && state.members.contains(own),
{
    assert(is_listed_up() =~= (|m: Member| m.state == MemberState::Up));
    lemma_filter_contains(state.members, is_listed_up(), member);
    crate::seqs::lemma_first_some(state.members, |m: Member| m.node == state.this);
}

/// What [ClusterState::diff] gives: for every member its listing, where that is new, its being
/// forgotten, where a Down one is listed no more, and that it went out of reach or came back.
pub proof fn transitions_tell_what_happened(
    current: &ClusterState,
    previous: &ClusterState,
    transitions: Vec<Transition>,
    m: Member,
)
    requires
        call_ensures(ClusterState::diff, (current, previous), transitions),
    ensures
        ({
            let listed = current@.members.contains(m) && !previous@.members.contains(m);
            let gone = previous@.members.contains(m) && !current@.members.contains(m);
            let lost = current@.unreachable.contains(m) && !previous@.unreachable.contains(m);
            let back = previous@.unreachable.contains(m) && !current@.unreachable.contains(m);
            &&& transitions@.contains(Transition::Up(m)) <==> listed && m.state == MemberState::Up
            &&& transitions@.contains(Transition::Down(m)) <==> listed && m.state
                == MemberState::Down
            &&& transitions@.contains(Transition::Forgotten(m)) <==> gone && m.state
                == MemberState::Down
            &&& transitions@.contains(Transition::Unreachable(m)) <==> lost
            &&& transitions@.contains(Transition::Reachable(m)) <==> back
                && current@.members.contains(m)
        }),
{
    a_diff_tells_what_happened(current@, previous@, m);
}

} // verus!
