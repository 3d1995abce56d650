//! Becoming a member, once: seed addresses are resolved until the view has settled, each is tried,
//! and where none is a member of a cluster the formation provider decides whether this node forms
//! one. Durations and instants are in nanoseconds.

use vstd::prelude::*;

use crate::addr::SocketAddr;
use crate::cluster::addrs::AddrSet;
use crate::cluster::config::{given_or, or_default};
use crate::cluster::coordinator::{Coordinator, FormError, Lifecycle};
use crate::cluster::endpoint::{Endpoint, EndpointModel};
use crate::cluster::failure::{FailureDetector, FailureDetectorFactory};
use crate::cluster::formation::{Formation, FormationModel, FormationProvider};
use crate::cluster::connect::ConnectError;
use crate::cluster::joining::{is_other, without_addr, JoinPassModel, JoinRound, JoinRoundModel,
    JoinStepModel};
use crate::cluster::membership::JoinError;
use crate::cluster::outbound::copy_all;
use crate::seqs::{age, elapsed};

verus! {

/// The seeds of a statically configured cluster: the same addresses every time.
#[derive(Debug)]
pub struct FixedSeeds(pub Vec<SocketAddr>);

impl FixedSeeds {
    /// A discovery resolving to exactly the given addresses.
    pub fn new(seeds: Vec<SocketAddr>) -> (fixed: Self)
        ensures
            fixed.0@ == seeds@,
    {
        FixedSeeds(seeds)
    }

    /// The current seed addresses.
    pub fn resolve(&self) -> (seeds: Vec<SocketAddr>)
        ensures
            seeds@ == self.0@,
    {
        copy_all(&self.0)
    }
}

/// The settings of a bootstrap.
#[derive(Debug, Clone, Copy, PartialEq, Eq, Structural)]
pub struct BootstrapConfig {
    /// The minimum size of the universe, the resolved addresses united with this node's own, before
    /// a decision is taken.
    pub min_peers: usize,
    /// How long the resolved address set must stay unchanged before the join decision is taken. A
    /// new set is never settled, so zero takes the decision on the second resolution.
    pub settle: u128,
    /// The pause between two resolutions. Must not be zero.
    pub resolve_interval: u128,
}

/// The [BootstrapConfig] is invalid.
#[derive(Debug, Clone, Copy, PartialEq, Eq, Structural)]
pub enum InvalidBootstrapConfig {
    /// The `resolve_interval` is zero.
    ZeroResolveInterval,
}

/// The cluster cannot be bootstrapped.
#[derive(Debug, Clone, Copy, PartialEq, Eq, Structural)]
pub enum BootstrapError {
    /// The given configuration is invalid.
    Config(InvalidBootstrapConfig),
    /// The remoting endpoint has not been started.
    EndpointNotStarted,
    /// This node's incarnation has been downed by the cluster.
    Downed,
}

impl BootstrapConfig {
    pub const DEFAULT_MIN_PEERS: usize = 2;

    pub const DEFAULT_SETTLE: u128 = 3_000_000_000;

    pub const DEFAULT_RESOLVE_INTERVAL: u128 = 1_000_000_000;

    /// The settings with every one at its default.
    pub fn new() -> (config: Self)
        ensures
            config == (BootstrapConfig {
                min_peers: Self::DEFAULT_MIN_PEERS,
                settle: Self::DEFAULT_SETTLE,
                resolve_interval: Self::DEFAULT_RESOLVE_INTERVAL,
            }),
            config.validated() == Ok::<(), InvalidBootstrapConfig>(()),
    {
        BootstrapConfig {
            min_peers: Self::DEFAULT_MIN_PEERS,
            settle: Self::DEFAULT_SETTLE,
            resolve_interval: Self::DEFAULT_RESOLVE_INTERVAL,
        }
    }

    pub open spec fn validated(self) -> Result<(), InvalidBootstrapConfig> {
        if self.resolve_interval == 0 {
            Err(InvalidBootstrapConfig::ZeroResolveInterval)
        } else {
            Ok(())
        }
    }
}

impl Default for BootstrapConfig {
    fn default() -> (config: Self)
        ensures
            config == (BootstrapConfig {
                min_peers: BootstrapConfig::DEFAULT_MIN_PEERS,
                settle: BootstrapConfig::DEFAULT_SETTLE,
                resolve_interval: BootstrapConfig::DEFAULT_RESOLVE_INTERVAL,
            }),
    {
        BootstrapConfig::new()
    }
}

/// Whether the settings can be worked with.
pub fn validate(config: &BootstrapConfig) -> (r: Result<(), InvalidBootstrapConfig>)
    ensures
        r == config.validated(),
{
    if config.resolve_interval == 0 {
        return Err(InvalidBootstrapConfig::ZeroResolveInterval);
    }
    Ok(())
}

/// The settings of a bootstrap as a configuration file gives them: each may be left out, and none of
/// them is checked.
#[derive(Debug, Clone, Copy, PartialEq, Eq, Structural)]
pub struct UncheckedBootstrapConfig {
    pub min_peers: Option<usize>,
    pub settle: Option<u128>,
    pub resolve_interval: Option<u128>,
}

impl UncheckedBootstrapConfig {
    /// The given settings, and the defaults where none was given.
    pub open spec fn completed(self) -> BootstrapConfig {
        BootstrapConfig {
            min_peers: given_or(self.min_peers, BootstrapConfig::DEFAULT_MIN_PEERS),
            settle: given_or(self.settle, BootstrapConfig::DEFAULT_SETTLE),
            resolve_interval: given_or(
                self.resolve_interval,
                BootstrapConfig::DEFAULT_RESOLVE_INTERVAL,
            ),
        }
    }

    /// The settings, completed by the defaults and found valid.
    pub fn check(self) -> (r: Result<BootstrapConfig, InvalidBootstrapConfig>)
        ensures
            match r {
                Ok(config) => config == self.completed() && config.validated() is Ok,
                Err(error) => self.completed().validated() == Err::<(), InvalidBootstrapConfig>(
                    error,
                ),
            },
    {
        let defaults = BootstrapConfig::new();
        let config = BootstrapConfig {
            min_peers: or_default(self.min_peers, defaults.min_peers),
            settle: or_default(self.settle, defaults.settle),
            resolve_interval: or_default(self.resolve_interval, defaults.resolve_interval),
        };
        match validate(&config) {
            Ok(()) => Ok(config),
            Err(error) => Err(error),
        }
    }
}

/// The set last resolved and since when it is unchanged.
#[derive(Debug)]
pub struct Settle {
    pub settle: u128,
    pub current: Option<(AddrSet, u128)>,
}

pub open spec fn current_view(current: Option<(AddrSet, u128)>) -> Option<(Set<SocketAddr>, u128)> {
    match current {
        Some((addrs, since)) => Some((addrs@, since)),
        None => None,
    }
}

impl View for Settle {
    type V = Option<(Set<SocketAddr>, u128)>;

    open spec fn view(&self) -> Option<(Set<SocketAddr>, u128)> {
        current_view(self.current)
    }
}

impl Settle {
    pub open spec fn wf(&self) -> bool {
        self.current matches Some(current) ==> current.0.wf()
    }

    pub fn new(settle: u128) -> (r: Self)
        ensures
            r.wf(),
            r.settle == settle,
            r@ is None,
    {
        Settle { settle, current: None }
    }

    /// Whether the set has been unchanged for as long as it takes; a new one never has.
    pub fn settled(&mut self, resolved: &AddrSet, at: u128) -> (r: bool)
        requires
            old(self).wf(),
            resolved.wf(),
        ensures
            final(self).wf(),
            final(self).settle == old(self).settle,
            match old(self)@ {
                Some((current, since)) if current == resolved@ => {
                    &&& r == (age(at, since) >= old(self).settle)
                    &&& final(self)@ == old(self)@
                },
                _ => !r && final(self)@ == Some((resolved@, at)),
            },
    {
        if let Some(current) = &self.current {
            if same_addrs(&current.0, resolved) {
                return elapsed(at, current.1) >= self.settle;
            }
        }
        self.current = Some((resolved.copy(), at));
        false
    }

    /// Forgets what was resolved: nothing was observed.
    pub fn reset(&mut self)
        ensures
            final(self).wf(),
            final(self).settle == old(self).settle,
            final(self)@ is None,
    {
        self.current = None;
    }
}

fn covers_addrs(a: &AddrSet, b: &AddrSet) -> (r: bool)
    ensures
        r == b@.subset_of(a@),
{
    let mut i: usize = 0;
    while i < b.addrs.len()
        invariant
            i <= b.addrs@.len(),
            forall|j: int| 0 <= j < i ==> a@.contains(#[trigger] b.addrs@[j]),
        decreases b.addrs@.len() - i,
    {
        if !a.contains(b.addrs[i]) {
            assert(b@.contains(b.addrs@[i as int]));
            return false;
        }
        i = i + 1;
    }
    assert forall|x: SocketAddr| b@.contains(x) implies a@.contains(x) by {
        let j = choose|j: int| 0 <= j < b.addrs@.len() && b.addrs@[j] == x;
        assert(a@.contains(b.addrs@[j]));
    }
    true
}

/// Whether two sets hold the same addresses.
pub fn same_addrs(a: &AddrSet, b: &AddrSet) -> (r: bool)
    ensures
        r == (a@ == b@),
{
    let r = covers_addrs(a, b) && covers_addrs(b, a);
    assert(r ==> a@ =~= b@);
    r
}

/// The addresses resolved and this node's own, which discovery need not resolve.
pub fn universe(resolved: &Vec<SocketAddr>, self_addr: SocketAddr) -> (universe: AddrSet)
    ensures
        universe.wf(),
        universe@ == resolved@.to_set().insert(self_addr),
{
    let mut universe = AddrSet::new();
    let mut i: usize = 0;
    assert(universe@ =~= resolved@.take(0).to_set());
    while i < resolved.len()
        invariant
            i <= resolved@.len(),
            universe.wf(),
            universe@ == resolved@.take(i as int).to_set(),
        decreases resolved@.len() - i,
    {
        let ghost before = resolved@.take(i as int);
        let _ = universe.insert(resolved[i]);
        i = i + 1;
        proof {
            let after = resolved@.take(i as int);
            assert(after =~= before.push(resolved@[i - 1]));
            assert forall|x: SocketAddr| #[trigger] after.contains(x) == (before.contains(x) || x
                == resolved@[i - 1]) by {
                if before.contains(x) {
                    let j = choose|j: int| 0 <= j < before.len() && before[j] == x;
                    assert(after[j] == x);
                }
                assert(after[i - 1] == resolved@[i - 1]);
            }
            assert(universe@ =~= after.to_set());
        }
    }
    assert(resolved@.take(i as int) =~= resolved@);
    let _ = universe.insert(self_addr);
    universe
}

/// The addresses of the universe but this node's own, in order.
pub fn seeds(universe: &AddrSet, self_addr: SocketAddr) -> (seeds: Vec<SocketAddr>)
    requires
        universe.wf(),
    ensures
        seeds@ == universe.listed().filter(is_other(self_addr)),
        forall|addr: SocketAddr| #[trigger]
            seeds@.contains(addr) == (universe@.contains(addr) && addr != self_addr),
{
    let seeds = without_addr(&universe.addrs, self_addr);
    proof {
        let p = is_other(self_addr);
        assert forall|addr: SocketAddr| #[trigger]
            seeds@.contains(addr) == (universe@.contains(addr) && addr != self_addr) by {
            crate::seqs::lemma_filter_contains(universe.addrs@, p, addr);
        }
    }
    seeds
}

/// What a bootstrap does next.
#[derive(Debug)]
pub enum BootstrapStep {
    /// Resolve the seed addresses.
    Resolve,
    /// Make a pass over the seeds, then decide over the universe.
    Join { universe: AddrSet, seeds: Vec<SocketAddr> },
    /// Ask the formation provider.
    Decide(Formation),
    /// Wait for the resolve interval.
    Wait,
    /// The bootstrap is over.
    Done(Result<(), BootstrapError>),
}

impl BootstrapStep {
    /// The bootstrap is over and this node a member.
    pub open spec fn ends_well(self) -> bool {
        self matches BootstrapStep::Done(Ok(_))
    }
}

/// A bootstrap under way.
#[derive(Debug)]
pub struct Bootstrap {
    pub config: BootstrapConfig,
    pub settle: Settle,
}

pub open spec fn start_of(config: BootstrapConfig, started: bool) -> Result<(), BootstrapError> {
    match config.validated() {
        Err(error) => Err(BootstrapError::Config(error)),
        Ok(_) => if started {
            Ok(())
        } else {
            Err(BootstrapError::EndpointNotStarted)
        },
    }
}

/// What a formation amounts to for a bootstrap: `true` once this node is a member, `false` while a
/// join attempt could be making it one of another cluster.
pub open spec fn formed_by(r: Result<(), FormError>) -> Result<bool, BootstrapError> {
    match r {
        Ok(_) => Ok(true),
        Err(FormError::AlreadyFormed) => Ok(true),
        Err(FormError::Downed) => Err(BootstrapError::Downed),
        Err(_) => Ok(false),
    }
}

impl Bootstrap {
    pub open spec fn wf(&self) -> bool {
        self.settle.wf() && self.settle.settle == self.config.settle
    }

    /// Begins a bootstrap of a started endpoint.
    pub fn begin(config: BootstrapConfig, started: bool) -> (r: Result<Self, BootstrapError>)
        ensures
            match start_of(config, started) {
                Ok(_) => r matches Ok(b) && b.wf() && b.config == config && b.settle@ is None,
                Err(error) => r == Err::<Self, BootstrapError>(error),
            },
    {
        match validate(&config) {
            Err(error) => Err(BootstrapError::Config(error)),
            Ok(_) => {
                if !started {
                    return Err(BootstrapError::EndpointNotStarted);
                }
                Ok(Bootstrap { config, settle: Settle::new(config.settle) })
            },
        }
    }

    /// Resolves, unless this node is downed or, through whatever, a member already: joining a
    /// cluster it is in would churn its lanes.
    pub fn next<H, S, R, D: FailureDetector, F: FailureDetectorFactory<D>>(
        &self,
        endpoint: &Endpoint<H, S, R, D, F>,
    ) -> (step: BootstrapStep)
        ensures
            step == match endpoint@.coordinator.lifecycle {
                Lifecycle::Downed => BootstrapStep::Done(Err(BootstrapError::Downed)),
                Lifecycle::Formed => BootstrapStep::Done(Ok(())),
                Lifecycle::Unformed => BootstrapStep::Resolve,
            },
            step.ends_well() ==> endpoint@.is_member(),
    {
        match endpoint.lifecycle() {
            Lifecycle::Downed => BootstrapStep::Done(Err(BootstrapError::Downed)),
            Lifecycle::Formed => BootstrapStep::Done(Ok(())),
            Lifecycle::Unformed => BootstrapStep::Resolve,
        }
    }

    /// Takes what was resolved. Once it has settled and holds enough addresses, a pin discovery
    /// dropped is released and the seeds are tried.
    pub fn on_resolved<H, S, R, D: FailureDetector, F: FailureDetectorFactory<D>>(
        &mut self,
        endpoint: &mut Endpoint<H, S, R, D, F>,
        resolved: &Vec<SocketAddr>,
        at: u128,
    ) -> (step: BootstrapStep)
        requires
            old(self).wf(),
            old(endpoint).wf(),
        ensures
            final(self).wf(),
            final(self).config == old(self).config,
            final(endpoint).wf(),
            ({
                let own = old(endpoint)@.node.addr;
                let seen = resolved@.to_set().insert(own);
                let settled = old(self).settle@ matches Some((current, since)) && current == seen
                    && age(at, since) >= old(self).config.settle;
                let joins = settled && seen.len() >= old(self).config.min_peers;
                &&& final(self).settle@ == (if old(self).settle@ matches Some((current, since))
                    && current == seen {
                    old(self).settle@
                } else {
                    Some((seen, at))
                })
                &&& joins ==> {
                    &&& step matches BootstrapStep::Join { universe, seeds }
                    &&& universe.wf()
                    &&& universe@ == seen
                    &&& seeds@ == universe.listed().filter(is_other(own))
                    &&& final(endpoint)@ == old(endpoint)@.unpinned(seen)
                }
                &&& !joins ==> step is Wait && final(endpoint)@ == old(endpoint)@
            }),
    {
        let own = endpoint.node.addr;
        let universe = universe(resolved, own);
        let settled = self.settle.settled(&universe, at);
        if settled && universe.len() >= self.config.min_peers {
            let _ = endpoint.release_pin_if_gone(&universe);
            let seeds = seeds(&universe, own);
            return BootstrapStep::Join { universe, seeds };
        }
        BootstrapStep::Wait
    }

    /// A failed resolution restarts the settle window: nothing was observed during it.
    pub fn on_resolve_failed(&mut self) -> (step: BootstrapStep)
        requires
            old(self).wf(),
        ensures
            final(self).wf(),
            final(self).config == old(self).config,
            final(self).settle@ is None,
            step is Wait,
    {
        self.settle.reset();
        BootstrapStep::Wait
    }

    /// Takes the outcome of a pass over the seeds.
    pub fn on_round<H, S, R, D: FailureDetector, F: FailureDetectorFactory<D>>(
        &self,
        endpoint: &Endpoint<H, S, R, D, F>,
        universe: AddrSet,
        round: Result<JoinRound, JoinError>,
    ) -> (step: BootstrapStep)
        requires
            universe.wf(),
            round matches Err(error) ==> error == JoinError::Downed,
        ensures
            match round {
                Err(_) => step == BootstrapStep::Done(Err(BootstrapError::Downed)),
                Ok(JoinRound::Joined) => step == BootstrapStep::Done(Ok(())),
                Ok(JoinRound::ClusterSeen(_)) => step is Wait,
                Ok(JoinRound::NoAdmission(outcomes)) => {
                    &&& step matches BootstrapStep::Decide(decision)
                    &&& decision.wf()
                    &&& decision@ == (FormationModel {
                        universe: universe@,
                        self_addr: endpoint@.node.addr,
                        outcomes: outcomes@,
                    })
                },
            },
            step.ends_well() ==> round == Ok::<JoinRound, JoinError>(JoinRound::Joined),
    {
        match round {
            Err(_) => BootstrapStep::Done(Err(BootstrapError::Downed)),
            Ok(JoinRound::Joined) => BootstrapStep::Done(Ok(())),
            Ok(JoinRound::ClusterSeen(_)) => BootstrapStep::Wait,
            Ok(JoinRound::NoAdmission(outcomes)) => BootstrapStep::Decide(
                Formation { universe, self_addr: endpoint.node.addr, outcomes },
            ),
        }
    }

    /// Carries out the formation provider's decision.
    pub fn on_decided<H, S, R, D: FailureDetector, F: FailureDetectorFactory<D>>(
        &self,
        endpoint: &mut Endpoint<H, S, R, D, F>,
        forms: bool,
    ) -> (step: BootstrapStep)
        requires
            old(endpoint).wf(),
        ensures
            final(endpoint).wf(),
            old(endpoint)@.is_carried_out(forms, step, final(endpoint)@),
            step.ends_well() ==> final(endpoint)@.is_member(),
    {
        if !forms {
            return BootstrapStep::Wait;
        }
        match form_cluster(endpoint) {
            Ok(true) => BootstrapStep::Done(Ok(())),
            Ok(false) => BootstrapStep::Wait,
            Err(error) => BootstrapStep::Done(Err(error)),
        }
    }

    /// Asks the formation provider and carries out what it decides; this node forms only if it may.
    pub fn decide<
        H,
        S,
        R,
        D: FailureDetector,
        F: FailureDetectorFactory<D>,
        P: FormationProvider,
    >(
        &self,
        endpoint: &mut Endpoint<H, S, R, D, F>,
        provider: &mut P,
        formation: &Formation,
    ) -> (step: BootstrapStep)
        requires
            old(endpoint).wf(),
            formation.wf(),
            formation@.outcomes.len() < usize::MAX,
        ensures
            final(endpoint).wf(),
            exists|forms: bool| #[trigger]
                old(provider).may_answer(formation@, forms) && old(endpoint)@.is_carried_out(
                    forms,
                    step,
                    final(endpoint)@,
                ),
            step.ends_well() ==> final(endpoint)@.is_member(),
    {
        let forms = provider.form(formation);
        self.on_decided(endpoint, forms)
    }
}

impl<H, S, R, D: FailureDetector> EndpointModel<H, S, R, D> {
    pub open spec fn unpinned(self, universe: Set<SocketAddr>) -> EndpointModel<H, S, R, D> {
        if self.coordinator.is_stale(universe) && self.coordinator.pinned is Some {
            EndpointModel {
                coordinator: Coordinator { pinned: None, ..self.coordinator },
                ..self
            }
        } else {
            self
        }
    }

    /// This node is a member of a cluster.
    pub open spec fn is_member(self) -> bool {
        self.coordinator.lifecycle == Lifecycle::Formed
    }

    /// The step and the endpoint after a decision: nothing but a wait where this node is not to
    /// form, else the formation and what it amounts to.
    pub open spec fn is_carried_out(
        self,
        forms: bool,
        step: BootstrapStep,
        after: EndpointModel<H, S, R, D>,
    ) -> bool {
        if forms {
            &&& after == self.forming()
            &&& match formed_by(self.coordinator.can_form()) {
                Ok(true) => step == BootstrapStep::Done(Ok(())),
                Ok(false) => step is Wait,
                Err(error) => step == BootstrapStep::Done(Err(error)),
            }
        } else {
            step is Wait && after == self
        }
    }

    pub open spec fn forming(self) -> EndpointModel<H, S, R, D> {
        if self.coordinator.can_form() is Ok {
            EndpointModel {
                coordinator: Coordinator { lifecycle: Lifecycle::Formed, ..self.coordinator },
                ..self
            }
        } else {
            self
        }
    }
}

/// Forms a cluster; `true` once this node is a member.
pub fn form_cluster<H, S, R, D: FailureDetector, F: FailureDetectorFactory<D>>(
    endpoint: &mut Endpoint<H, S, R, D, F>,
) -> (r: Result<bool, BootstrapError>)
    requires
        old(endpoint).wf(),
    ensures
        final(endpoint).wf(),
        final(endpoint)@ == old(endpoint)@.forming(),
        r == formed_by(old(endpoint)@.coordinator.can_form()),
{
    match endpoint.form_cluster() {
        Ok(_) => Ok(true),
        Err(FormError::AlreadyFormed) => Ok(true),
        Err(FormError::Downed) => Err(BootstrapError::Downed),
        Err(_) => Ok(false),
    }
}

/// The universe holds this node whether or not discovery resolved it.
pub proof fn the_universe_always_holds_this_node(resolved: Seq<SocketAddr>, own: SocketAddr)
    ensures
        resolved.to_set().insert(own).contains(own),
        resolved.to_set().insert(own).finite(),
        resolved.to_set().insert(own).len() >= 1,
{
    vstd::seq_lib::seq_to_set_is_finite(resolved);
}

/// A successful formation makes this node a member, and nothing but a formation does.
pub proof fn forming_makes_a_member<H, S, R, D: FailureDetector>(
    endpoint: EndpointModel<H, S, R, D>,
)
    ensures
        formed_by(endpoint.coordinator.can_form()) == Ok::<bool, BootstrapError>(true)
            ==> endpoint.forming().coordinator.lifecycle == Lifecycle::Formed,
        formed_by(endpoint.coordinator.can_form()) != Ok::<bool, BootstrapError>(true)
            ==> endpoint.forming() == endpoint,
{
}

/// A pass over the seeds ends in a join only with an attempt which was committed, and committing it
/// made this node a member. With what the other steps say, a bootstrap ends well only once this node
/// is one.
pub proof fn a_committed_join_makes_a_member<H, S, R, D: FailureDetector>(
    endpoint: EndpointModel<H, S, R, D>,
    pass: JoinPassModel,
    addr: SocketAddr,
    attempt: Result<(), ConnectError>,
    is_downed: bool,
    pinned: Option<SocketAddr>,
)
    ensures
        ({
            let (coordinator, result, _) = endpoint.coordinator.finished(addr, attempt);
            let step = pass.tried(is_downed, pinned, addr, result).1;
            step == JoinStepModel::Over(Ok(JoinRoundModel::Joined)) ==> {
                &&& result is Ok
                &&& EndpointModel { coordinator, ..endpoint }.is_member()
            }
        }),
{
}

/// Whatever the provider answers, asking it ends a bootstrap well only where this node is a member
/// by then, and leaves one which is not to form as it was.
pub proof fn a_decision_ends_well_only_for_a_member<H, S, R, D: FailureDetector>(
    before: EndpointModel<H, S, R, D>,
    forms: bool,
    step: BootstrapStep,
    after: EndpointModel<H, S, R, D>,
)
    requires
        before.is_carried_out(forms, step, after),
    ensures
        step.ends_well() ==> forms && after.is_member(),
        after.is_member() && !before.is_member() ==> forms && step.ends_well(),
        !forms ==> after == before,
{
}

/// A decision to form is carried out where nothing stands in the way, and changes nothing but that
/// this node is a member then. A node downed ends its bootstrap, one which is a member already is
/// done, and a join under way or a pinned cluster is waited for.
pub proof fn a_decision_is_carried_out<H, S, R, D: FailureDetector>(
    before: EndpointModel<H, S, R, D>,
    step: BootstrapStep,
    after: EndpointModel<H, S, R, D>,
)
    requires
        before.is_carried_out(true, step, after),
    ensures
        ({
            let lifecycle = before.coordinator.lifecycle;
            let waits = before.coordinator.join_in_flight || before.coordinator.pinned is Some;
            &&& lifecycle == Lifecycle::Downed ==> step == BootstrapStep::Done(
                Err(BootstrapError::Downed),
            )
            &&& lifecycle != Lifecycle::Downed && waits ==> step is Wait
            &&& lifecycle != Lifecycle::Downed && !waits ==> step == BootstrapStep::Done(Ok(()))
            &&& lifecycle == Lifecycle::Unformed && !waits ==> after == (EndpointModel {
                coordinator: Coordinator {
                    lifecycle: Lifecycle::Formed,
                    join_in_flight: false,
                    pinned: None,
                },
                ..before
            })
            &&& lifecycle != Lifecycle::Unformed || waits ==> after == before
        }),
{
}

/// A pin is released where discovery no longer lists its address and no join is under way; nothing
/// else is changed by that.
pub proof fn a_gone_pin_is_released<H, S, R, D: FailureDetector>(
    endpoint: EndpointModel<H, S, R, D>,
    universe: Set<SocketAddr>,
)
    ensures
        ({
            let after = endpoint.unpinned(universe);
            let pinned = endpoint.coordinator.pinned;
            let gone = !endpoint.coordinator.join_in_flight && pinned is Some && !universe.contains(
                pinned->0,
            );
            &&& gone ==> after == (EndpointModel {
                coordinator: Coordinator { pinned: None, ..endpoint.coordinator },
                ..endpoint
            })
            &&& !gone ==> after == endpoint
        }),
{
}

/// A set is settled once it was resolved unchanged for as long as it takes; one which differs from
/// the last starts over.
pub proof fn a_set_settles_unchanged(
    settle: &mut Settle,
    resolved: &AddrSet,
    at: u128,
    settled: bool,
)
    requires
        call_ensures(Settle::settled, (settle, resolved, at), settled),
    ensures
        ({
            let same = old(settle)@ is Some && (old(settle)@->0).0 == resolved@;
            let since = (old(settle)@->0).1;
            &&& settled <==> same && (at - since >= old(settle).settle || old(settle).settle == 0)
            &&& same ==> final(settle)@ == old(settle)@
            &&& !same ==> final(settle)@ == Some((resolved@, at))
            &&& final(settle).settle == old(settle).settle
        }),
{
}

/// The seeds are tried once what was resolved, with this node, has been the same for long enough and
/// is enough: all of it but this node, in order. Until then nothing is done, and a change starts the
/// wait over.
pub proof fn the_seeds_are_tried_once_settled<
    H,
    S,
    R,
    D: FailureDetector,
    F: FailureDetectorFactory<D>,
>(
    bootstrap: &mut Bootstrap,
    endpoint: &mut Endpoint<H, S, R, D, F>,
    resolved: &Vec<SocketAddr>,
    at: u128,
    step: BootstrapStep,
    addr: SocketAddr,
)
    requires
        call_ensures(
            Bootstrap::on_resolved::<H, S, R, D, F>,
            (bootstrap, endpoint, resolved, at),
            step,
        ),
    ensures
        ({
            let own = old(endpoint)@.node.addr;
            let seen = resolved@.to_set().insert(own);
            let before = old(bootstrap).settle@;
            let same = before is Some && (before->0).0 == seen;
            let config = old(bootstrap).config;
            let tries = same && (at - (before->0).1 >= config.settle || config.settle == 0)
                && seen.len() >= config.min_peers;
            &&& step is Join <==> tries
            &&& step is Wait <==> !tries
            &&& final(bootstrap).settle@ == (if same {
                before
            } else {
                Some((seen, at))
            })
            &&& step matches BootstrapStep::Join { universe, seeds } ==> {
                &&& universe@ == seen
                &&& seeds@.contains(addr) <==> universe.listed().contains(addr) && addr != own
            }
            &&& !tries ==> final(endpoint)@ == old(endpoint)@
        }),
{
    if let BootstrapStep::Join { universe, seeds } = step {
        crate::seqs::lemma_filter_contains(
            universe.listed(),
            is_other(old(endpoint)@.node.addr),
            addr,
        );
    }
}

/// A pass which joined ends the bootstrap, one which met a refusal for good fails it, one which saw a
/// cluster is repeated, and only one which was admitted nowhere asks whether to form.
pub proof fn only_a_pass_without_admission_asks_to_form<
    H,
    S,
    R,
    D: FailureDetector,
    F: FailureDetectorFactory<D>,
>(
    bootstrap: &Bootstrap,
    endpoint: &Endpoint<H, S, R, D, F>,
    universe: AddrSet,
    round: Result<JoinRound, JoinError>,
    step: BootstrapStep,
)
    requires
        call_ensures(
            Bootstrap::on_round::<H, S, R, D, F>,
            (bootstrap, endpoint, universe, round),
            step,
        ),
    ensures
        step.ends_well() <==> round == Ok::<JoinRound, JoinError>(JoinRound::Joined),
        step is Decide <==> round matches Ok(JoinRound::NoAdmission(_)),
        step is Wait <==> round matches Ok(JoinRound::ClusterSeen(_)),
        round is Err ==> step == BootstrapStep::Done(Err(BootstrapError::Downed)),
        step matches BootstrapStep::Decide(formation) ==> formation@.universe == universe@
            && formation@.self_addr == endpoint@.node.addr && formation@.outcomes
            == (round->Ok_0)->NoAdmission_0@,
{
}

/// A bootstrap begins with a valid configuration on a started endpoint; what is wrong with the
/// configuration is said first.
pub proof fn a_bootstrap_begins_if_it_can(config: BootstrapConfig, started: bool)
    ensures
        start_of(config, started) is Ok <==> config.resolve_interval > 0 && started,
        config.resolve_interval == 0 ==> start_of(config, started) == Err::<(), BootstrapError>(
            BootstrapError::Config(InvalidBootstrapConfig::ZeroResolveInterval),
        ),
        config.resolve_interval > 0 && !started ==> start_of(config, started) == Err::<
            (),
            BootstrapError,
        >(BootstrapError::EndpointNotStarted),
{
}

} // verus!
