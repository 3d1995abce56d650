//! Deciding whether this node forms a new cluster when a round of join attempts found none. The
//! default's lowest-address rule stops a downed minority from forming one inside a partition.

use vstd::prelude::*;

use crate::addr::SocketAddr;
use crate::cluster::addrs::{is_lowest, the_lowest_address_is_unique, AddrSet};
use crate::seqs::lemma_contains_push;
use crate::sort::Ranked;

verus! {

/// What one join attempt against one address yielded, short of admitting this node.
#[derive(Debug, Clone, Copy, PartialEq, Eq, Structural)]
pub enum JoinOutcome {
    /// It answered that it is a member of no cluster, so it counts towards forming one.
    NoCluster,
    /// It did not answer, or answered something which is not an admission. Nothing about whether a
    /// cluster exists there follows from it.
    Unavailable,
}

/// What one round of join attempts saw, next to the addresses it was taken over.
#[derive(Debug)]
pub struct Formation {
    /// Every address discovery resolved, this node's own included. Deciding on the universe rather
    /// than on who answered is what keeps a partitioned node from forming.
    pub universe: AddrSet,
    /// This node's own address.
    pub self_addr: SocketAddr,
    /// What each attempted address answered. Addresses of the universe which were not attempted are
    /// absent, so a rule must count against the universe rather than against this.
    pub outcomes: Vec<(SocketAddr, JoinOutcome)>,
}

/// A [Formation] by value.
#[verifier::ext_equal]
pub ghost struct FormationModel {
    pub universe: Set<SocketAddr>,
    pub self_addr: SocketAddr,
    pub outcomes: Seq<(SocketAddr, JoinOutcome)>,
}

impl View for Formation {
    type V = FormationModel;

    open spec fn view(&self) -> FormationModel {
        FormationModel {
            universe: self.universe@,
            self_addr: self.self_addr,
            outcomes: self.outcomes@,
        }
    }
}

/// The addresses of a universe, but for this node's own, with an answer that there is no cluster.
pub open spec fn no_cluster_among(
    universe: Set<SocketAddr>,
    self_addr: SocketAddr,
    outcomes: Seq<(SocketAddr, JoinOutcome)>,
) -> Set<SocketAddr> {
    universe.filter(
        |addr: SocketAddr| addr != self_addr && outcomes.contains((addr, JoinOutcome::NoCluster)),
    )
}

impl FormationModel {
    pub open spec fn is_lowest(self) -> bool {
        is_lowest(self.universe, self.self_addr)
    }

    /// The other addresses of the universe which answered that they are no cluster.
    pub open spec fn no_cluster(self) -> Set<SocketAddr> {
        no_cluster_among(self.universe, self.self_addr, self.outcomes)
    }

    /// The addresses of the universe known to be no cluster, this node among them.
    pub open spec fn no_cluster_count(self) -> nat {
        1 + self.no_cluster().len()
    }

    /// A strict majority of the universe is known to be no cluster.
    pub open spec fn majority_forms(self) -> bool {
        self.is_lowest() && self.no_cluster_count() * 2 > self.universe.len()
    }

    /// All of the universe is known to be no cluster.
    pub open spec fn unanimous_forms(self) -> bool {
        self.is_lowest() && self.no_cluster_count() == self.universe.len()
    }
}

impl Formation {
    pub open spec fn wf(&self) -> bool {
        self.universe.wf()
    }

    /// This node holds the lowest address of the universe, hence the only one which may form.
    pub fn is_lowest(&self) -> (r: bool)
        requires
            self.wf(),
        ensures
            r == self@.is_lowest(),
    {
        match self.universe.first() {
            Some(lowest) => {
                proof {
                    if self@.is_lowest() {
                        the_lowest_address_is_unique(self.universe@, lowest, self.self_addr);
                    }
                }
                lowest == self.self_addr
            },
            None => false,
        }
    }

    /// How many addresses of the universe are known to be no cluster, this node included, since a
    /// node running bootstrap is none itself.
    pub fn no_cluster_count(&self) -> (count: usize)
        requires
            self.wf(),
            self@.outcomes.len() < usize::MAX,
        ensures
            count == self@.no_cluster_count(),
    {
        let ghost s = self.outcomes@;
        let mut counted = AddrSet::new();
        let mut i: usize = 0;
        proof {
            assert(counted@ =~= no_cluster_among(self.universe@, self.self_addr, s.take(0)));
        }
        while i < self.outcomes.len()
            invariant
                i <= s.len(),
                s == self.outcomes@,
                counted.wf(),
                counted@.finite(),
                counted@.len() <= i,
                counted@ == no_cluster_among(self.universe@, self.self_addr, s.take(i as int)),
            decreases s.len() - i,
        {
            let (addr, outcome) = self.outcomes[i];
            if outcome == JoinOutcome::NoCluster && addr != self.self_addr
                && self.universe.contains(addr) {
                counted.insert(addr);
            }
            proof {
                assert(s.take(i + 1) =~= s.take(i as int).push((addr, outcome)));
                assert forall|other: SocketAddr|
                    counted@.contains(other) == no_cluster_among(
                        self.universe@,
                        self.self_addr,
                        s.take(i + 1),
                    ).contains(other) by {
                    lemma_contains_push(
                        s.take(i as int),
                        (addr, outcome),
                        (other, JoinOutcome::NoCluster),
                    );
                }
                assert(counted@ =~= no_cluster_among(
                    self.universe@,
                    self.self_addr,
                    s.take(i + 1),
                ));
            }
            i = i + 1;
        }
        assert(s.take(s.len() as int) =~= s);
        1 + counted.len()
    }
}

/// Decides whether this node forms a new cluster, asked once a round of join attempts has been
/// admitted nowhere.
pub trait FormationProvider {
    /// The answers the provider may give, either one unless it says more.
    open spec fn may_answer(&self, formation: FormationModel, forms: bool) -> bool {
        true
    }

    /// Whether this node forms a cluster now.
    fn form(&mut self, formation: &Formation) -> (r: bool)
        requires
            formation.wf(),
            formation@.outcomes.len() < usize::MAX,
        ensures
            old(self).may_answer(formation@, r),
    ;
}

/// The default [FormationProvider]: forms once a strict majority of the universe, this node
/// included, is known to be no cluster, and only at the lowest address of the universe.
#[derive(Debug, Clone, Copy, PartialEq, Eq, Structural)]
pub struct Majority;

impl Default for Majority {
    fn default() -> (provider: Self)
        ensures
            provider == Majority,
    {
        Majority
    }
}

impl FormationProvider for Majority {
    open spec fn may_answer(&self, formation: FormationModel, forms: bool) -> bool {
        forms == formation.majority_forms()
    }

    fn form(&mut self, formation: &Formation) -> (r: bool) {
        let count: usize = formation.no_cluster_count();
        let len: usize = formation.universe.len();
        formation.is_lowest() && count as u128 * 2 > len as u128
    }
}

/// The strict [FormationProvider]: forms only once every address of the universe is known to be no
/// cluster, and only at the lowest of them.
#[derive(Debug, Clone, Copy, PartialEq, Eq, Structural)]
pub struct Unanimous;

impl Default for Unanimous {
    fn default() -> (provider: Self)
        ensures
            provider == Unanimous,
    {
        Unanimous
    }
}

impl FormationProvider for Unanimous {
    open spec fn may_answer(&self, formation: FormationModel, forms: bool) -> bool {
        forms == formation.unanimous_forms()
    }

    fn form(&mut self, formation: &Formation) -> (r: bool) {
        let count: usize = formation.no_cluster_count();
        let len: usize = formation.universe.len();
        formation.is_lowest() && count == len
    }
}

/// The [FormationProvider] which never forms: the deployment forms the cluster, and bootstrap only
/// ever joins it.
#[derive(Debug, Clone, Copy, PartialEq, Eq, Structural)]
pub struct Explicit;

impl Default for Explicit {
    fn default() -> (provider: Self)
        ensures
            provider == Explicit,
    {
        Explicit
    }
}

impl FormationProvider for Explicit {
    open spec fn may_answer(&self, formation: FormationModel, forms: bool) -> bool {
        !forms
    }

    fn form(&mut self, formation: &Formation) -> (r: bool) {
        false
    }
}

/// A [FormationProvider] chosen by a configuration.
#[derive(Debug, Clone, Copy, PartialEq, Eq, Structural)]
pub enum FormationProviderConfig {
    Majority,
    Unanimous,
    Explicit,
}

impl FormationProvider for FormationProviderConfig {
    open spec fn may_answer(&self, formation: FormationModel, forms: bool) -> bool {
        forms == match *self {
            FormationProviderConfig::Majority => formation.majority_forms(),
            FormationProviderConfig::Unanimous => formation.unanimous_forms(),
            FormationProviderConfig::Explicit => false,
        }
    }

    fn form(&mut self, formation: &Formation) -> (r: bool)
        ensures
            *final(self) == *old(self),
    {
        match self {
            FormationProviderConfig::Majority => {
                let mut provider = Majority;
                provider.form(formation)
            },
            FormationProviderConfig::Unanimous => {
                let mut provider = Unanimous;
                provider.form(formation)
            },
            FormationProviderConfig::Explicit => {
                let mut provider = Explicit;
                provider.form(formation)
            },
        }
    }
}

/// Nodes deciding on the same universe cannot form two clusters: the former is unique, whatever each
/// of them saw.
pub proof fn at_most_one_node_forms(a: FormationModel, b: FormationModel)
    requires
        a.universe == b.universe,
        a.majority_forms() || a.unanimous_forms(),
        b.majority_forms() || b.unanimous_forms(),
    ensures
        a.self_addr == b.self_addr,
{
    the_lowest_address_is_unique(a.universe, a.self_addr, b.self_addr);
}

/// A side of a partition which is no strict majority of the universe never forms, however
/// completely it sees itself.
pub proof fn a_minority_never_forms(round: FormationModel, side: Set<SocketAddr>)
    requires
        round.universe.finite(),
        side.subset_of(round.universe),
        side.contains(round.self_addr),
        side.len() * 2 <= round.universe.len(),
        forall|i: int|
            0 <= i < round.outcomes.len() && (#[trigger] round.outcomes[i]).1
                == JoinOutcome::NoCluster && round.universe.contains(round.outcomes[i].0)
                ==> side.contains(round.outcomes[i].0),
    ensures
        !round.majority_forms(),
{
    vstd::set_lib::lemma_len_subset(side, round.universe);
    let others = side.remove(round.self_addr);
    assert forall|addr: SocketAddr| #[trigger] round.no_cluster().contains(
        addr,
    ) implies others.contains(addr) by {
        let i = round.outcomes.index_of((addr, JoinOutcome::NoCluster));
        assert(round.outcomes[i].0 == addr);
    }
    vstd::set_lib::lemma_len_subset(round.no_cluster(), others);
}

/// An answer from outside the universe, one from this node's own address, or one more from an
/// address which has already given it leaves the count as it is.
pub proof fn only_addresses_of_the_universe_count(
    round: FormationModel,
    answer: (SocketAddr, JoinOutcome),
)
    requires
        !round.universe.contains(answer.0) || answer.0 == round.self_addr
            || answer.1 != JoinOutcome::NoCluster || round.outcomes.contains(answer),
    ensures
        (FormationModel { outcomes: round.outcomes.push(answer), ..round }).no_cluster_count()
            == round.no_cluster_count(),
{
    let more = FormationModel { outcomes: round.outcomes.push(answer), ..round };
    assert forall|addr: SocketAddr| more.no_cluster().contains(addr)
        == round.no_cluster().contains(addr) by {
        lemma_contains_push(round.outcomes, answer, (addr, JoinOutcome::NoCluster));
    }
    assert(more.no_cluster() =~= round.no_cluster());
}

/// The node at the lowest address of the universe forms whenever so many addresses of it, itself
/// included, are known to be no cluster that they are more than half of it.
pub proof fn a_known_majority_forms(round: FormationModel, known: Set<SocketAddr>)
    requires
        round.universe.finite(),
        round.universe.contains(round.self_addr),
        forall|other: SocketAddr| #[trigger]
            round.universe.contains(other) && other != round.self_addr ==> round.self_addr.before(
                other,
            ),
        known.subset_of(round.universe),
        forall|other: SocketAddr| #[trigger]
            known.contains(other) && other != round.self_addr ==> exists|i: int|
                0 <= i < round.outcomes.len() && #[trigger] round.outcomes[i] == (
                    other,
                    JoinOutcome::NoCluster,
                ),
        known.contains(round.self_addr),
        known.len() * 2 > round.universe.len(),
    ensures
        forall|forms: bool| Majority.may_answer(round, forms) ==> forms,
        forall|forms: bool|
            FormationProviderConfig::Majority.may_answer(round, forms) ==> forms,
        known == round.universe ==> forall|forms: bool|
            Unanimous.may_answer(round, forms) ==> forms,
{
    assert forall|other: SocketAddr| #[trigger] round.universe.contains(
        other,
    ) implies !other.before(round.self_addr) by {
        if other.before(round.self_addr) {
            SocketAddr::asymmetric(other, round.self_addr);
        }
    }
    let others = known.remove(round.self_addr);
    assert forall|other: SocketAddr| others.contains(other) implies round.no_cluster().contains(
        other,
    ) by {
        let i = choose|i: int|
            0 <= i < round.outcomes.len() && #[trigger] round.outcomes[i] == (
                other,
                JoinOutcome::NoCluster,
            );
        assert(round.outcomes.contains(round.outcomes[i]));
    }
    vstd::set_lib::lemma_len_subset(known, round.universe);
    vstd::set_lib::lemma_len_subset(others, round.no_cluster());
    if known == round.universe {
        assert(round.no_cluster().subset_of(others));
        vstd::set_lib::lemma_len_subset(round.no_cluster(), others);
    }
}

/// A node which forms holds the lowest address of the universe, and more than half of it, itself
/// included, answered that they are no cluster; all of it, where that is asked for.
pub proof fn whoever_forms_knows_a_majority(round: FormationModel)
    requires
        round.universe.finite(),
    ensures
        ({
            let known = Set::new(
                |addr: SocketAddr|
                    round.universe.contains(addr) && (addr == round.self_addr || exists|i: int|
                        0 <= i < round.outcomes.len() && #[trigger] round.outcomes[i] == (
                            addr,
                            JoinOutcome::NoCluster,
                        )),
            );
            let is_first = round.universe.contains(round.self_addr) && forall|other: SocketAddr|
                #[trigger]
                round.universe.contains(other) && other != round.self_addr
                    ==> round.self_addr.before(other);
            &&& Majority.may_answer(round, true) ==> is_first && known.len() * 2
                > round.universe.len()
            &&& Unanimous.may_answer(round, true) ==> is_first && known == round.universe
            &&& !Explicit.may_answer(round, true)
            &&& Explicit.may_answer(round, false)
            &&& !FormationProviderConfig::Explicit.may_answer(round, true)
            &&& FormationProviderConfig::Majority.may_answer(round, true) == Majority.may_answer(
                round,
                true,
            )
            &&& FormationProviderConfig::Unanimous.may_answer(round, true)
                == Unanimous.may_answer(round, true)
        }),
{
    let known = Set::new(
        |addr: SocketAddr|
            round.universe.contains(addr) && (addr == round.self_addr || exists|i: int|
                0 <= i < round.outcomes.len() && #[trigger] round.outcomes[i] == (
                    addr,
                    JoinOutcome::NoCluster,
                )),
    );
    if round.is_lowest() {
        assert forall|other: SocketAddr| #[trigger]
            round.universe.contains(other) && other
                != round.self_addr implies round.self_addr.before(other) by {
            crate::addr::addr_order_is_total(round.self_addr, other);
        }
        assert forall|addr: SocketAddr| round.no_cluster().contains(addr) implies known.contains(
            addr,
        ) by {
            let i = round.outcomes.index_of((addr, JoinOutcome::NoCluster));
            assert(round.outcomes[i] == (addr, JoinOutcome::NoCluster));
        }
        assert(known.subset_of(round.universe));
        vstd::set_lib::lemma_len_subset(known, round.universe);
        assert(!round.no_cluster().contains(round.self_addr));
        vstd::set_lib::lemma_len_subset(round.no_cluster(), round.universe);
        assert(round.no_cluster().insert(round.self_addr).subset_of(known));
        vstd::set_lib::lemma_len_subset(round.no_cluster().insert(round.self_addr), known);
        if round.unanimous_forms() {
            vstd::set_lib::lemma_subset_equality(known, round.universe);
        }
    }
}

/// What [Majority] answers: this node forms exactly if its address is the lowest of the universe and
/// more than half of the universe, itself included, is known to be no cluster. [Unanimous] wants all
/// of it known, and [Explicit] never forms.
pub proof fn a_provider_forms_on_what_is_known(
    formation: &Formation,
    majority: &mut Majority,
    unanimous: &mut Unanimous,
    explicit: &mut Explicit,
    by_majority: bool,
    by_all: bool,
    by_none: bool,
)
    requires
        formation@.universe.finite(),
        call_ensures(<Majority as FormationProvider>::form, (majority, formation), by_majority),
        call_ensures(<Unanimous as FormationProvider>::form, (unanimous, formation), by_all),
        call_ensures(<Explicit as FormationProvider>::form, (explicit, formation), by_none),
    ensures
        ({
            let round = formation@;
            let known = Set::new(
                |addr: SocketAddr|
                    round.universe.contains(addr) && (addr == round.self_addr || exists|i: int|
                        0 <= i < round.outcomes.len() && #[trigger] round.outcomes[i] == (
                            addr,
                            JoinOutcome::NoCluster,
                        )),
            );
            let is_first = round.universe.contains(round.self_addr) && forall|other: SocketAddr|
                #[trigger]
                round.universe.contains(other) && other != round.self_addr
                    ==> round.self_addr.before(other);
            &&& by_majority <==> is_first && known.len() * 2 > round.universe.len()
            &&& by_all <==> is_first && known == round.universe
            &&& !by_none
        }),
{
    let round = formation@;
    let known = Set::new(
        |addr: SocketAddr|
            round.universe.contains(addr) && (addr == round.self_addr || exists|i: int|
                0 <= i < round.outcomes.len() && #[trigger] round.outcomes[i] == (
                    addr,
                    JoinOutcome::NoCluster,
                )),
    );
    let is_first = round.universe.contains(round.self_addr) && forall|other: SocketAddr| #[trigger]
        round.universe.contains(other) && other != round.self_addr ==> round.self_addr.before(
            other,
        );
    whoever_forms_knows_a_majority(round);
    if is_first {
        assert(known.subset_of(round.universe));
        if known.len() * 2 > round.universe.len() {
            a_known_majority_forms(round, known);
        }
        if known == round.universe {
            vstd::set_lib::lemma_len_subset(set![round.self_addr], round.universe);
            assert(round.universe.len() > 0);
            a_known_majority_forms(round, known);
        }
    }
}

} // verus!
