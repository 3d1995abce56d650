//! Joining a cluster through its seeds. One attempt runs at a time; once a cluster has answered,
//! nothing but that cluster is tried, since it may already count this node.

use vstd::prelude::*;

use crate::addr::SocketAddr;
use crate::cluster::chunks::{chunked, chunks_join_to_the_whole, joined};
use crate::cluster::connect::ConnectError;
use crate::cluster::endpoint::{Endpoint, EndpointModel};
use crate::cluster::failure::{FailureDetector, FailureDetectorFactory};
use crate::cluster::formation::JoinOutcome;
use crate::cluster::frame::{Frame, FrameModel, HandshakeIntent, RefusalReason};
use crate::cluster::membership::{gossip_frames, JoinError, Member, WireMember};
use crate::cluster::transport::{PeerIdentity, TransportError};
use crate::ids::NodeId;
use crate::seqs::{lemma_filter_start, lemma_filter_step};
use crate::wire::Wire;

verus! {

/// What one pass over the seeds saw, which is what a formation decision is taken on.
#[derive(Debug)]
pub enum JoinRound {
    Joined,
    /// The cluster at this address may count this node already, so only it may be tried and nothing
    /// may be formed until the attempt resolves.
    ClusterSeen(SocketAddr),
    NoAdmission(Vec<(SocketAddr, JoinOutcome)>),
}

#[verifier::ext_equal]
pub ghost enum JoinRoundModel {
    Joined,
    ClusterSeen(SocketAddr),
    NoAdmission(Seq<(SocketAddr, JoinOutcome)>),
}

impl View for JoinRound {
    type V = JoinRoundModel;

    open spec fn view(&self) -> JoinRoundModel {
        match *self {
            JoinRound::Joined => JoinRoundModel::Joined,
            JoinRound::ClusterSeen(addr) => JoinRoundModel::ClusterSeen(addr),
            JoinRound::NoAdmission(outcomes) => JoinRoundModel::NoAdmission(outcomes@),
        }
    }
}

pub open spec fn is_other(addr: SocketAddr) -> spec_fn(SocketAddr) -> bool {
    |other: SocketAddr| other != addr
}

/// The addresses but one, in order.
pub fn without_addr(addrs: &Vec<SocketAddr>, addr: SocketAddr) -> (others: Vec<SocketAddr>)
    ensures
        others@ == addrs@.filter(is_other(addr)),
{
    let ghost p = is_other(addr);
    let mut others: Vec<SocketAddr> = Vec::new();
    let mut i: usize = 0;
    proof {
        lemma_filter_start(addrs@, p);
    }
    while i < addrs.len()
        invariant
            i <= addrs@.len(),
            p == is_other(addr),
            others@ == addrs@.take(i as int).filter(p),
        decreases addrs@.len() - i,
    {
        proof {
            lemma_filter_step(addrs@, p, i as int);
        }
        if addrs[i] != addr {
            others.push(addrs[i]);
        }
        i = i + 1;
    }
    proof {
        lemma_filter_start(addrs@, p);
    }
    others
}

/// Whether there is anything to join through: a seed other than this node's own address.
pub fn check_seeds(seeds: &Vec<SocketAddr>, own: SocketAddr) -> (r: Result<(), JoinError>)
    ensures
        r == (if seeds@.filter(is_other(own)).len() == 0 {
            Err::<(), JoinError>(JoinError::NoSeeds)
        } else {
            Ok::<(), JoinError>(())
        }),
{
    if without_addr(seeds, own).len() == 0 {
        Err(JoinError::NoSeeds)
    } else {
        Ok(())
    }
}

/// One pass over the seeds.
#[derive(Debug)]
pub struct JoinPass {
    /// The seeds not tried yet, in order.
    pub left: Vec<SocketAddr>,
    pub outcomes: Vec<(SocketAddr, JoinOutcome)>,
}

/// A [JoinPass] by value.
#[verifier::ext_equal]
pub ghost struct JoinPassModel {
    pub left: Seq<SocketAddr>,
    pub outcomes: Seq<(SocketAddr, JoinOutcome)>,
}

impl View for JoinPass {
    type V = JoinPassModel;

    open spec fn view(&self) -> JoinPassModel {
        JoinPassModel { left: self.left@, outcomes: self.outcomes@ }
    }
}

/// What a pass does next.
#[derive(Debug)]
pub enum JoinStep {
    /// Attempt to join through the seed.
    Try(SocketAddr),
    /// The pass is over.
    Over(Result<JoinRound, JoinError>),
}

#[verifier::ext_equal]
pub ghost enum JoinStepModel {
    Try(SocketAddr),
    Over(Result<JoinRoundModel, JoinError>),
}

impl View for JoinStep {
    type V = JoinStepModel;

    open spec fn view(&self) -> JoinStepModel {
        match *self {
            JoinStep::Try(addr) => JoinStepModel::Try(addr),
            JoinStep::Over(Ok(round)) => JoinStepModel::Over(Ok(round@)),
            JoinStep::Over(Err(error)) => JoinStepModel::Over(Err(error)),
        }
    }
}

impl JoinPassModel {
    /// A pinned cluster is the only one tried; else every seed but this node's own address is, since
    /// a formed node dialing itself would admit itself.
    pub open spec fn over(pinned: Option<SocketAddr>, seeds: Seq<SocketAddr>, own: SocketAddr) -> JoinPassModel {
        JoinPassModel {
            left: match pinned {
                Some(addr) => seq![addr],
                None => seeds.filter(is_other(own)),
            },
            outcomes: Seq::empty(),
        }
    }

    /// The next seed, unless this node is downed or none is left.
    pub open spec fn next(self, downed: bool) -> (JoinPassModel, JoinStepModel) {
        if self.left.len() == 0 {
            (self, JoinStepModel::Over(Ok(JoinRoundModel::NoAdmission(self.outcomes))))
        } else if downed {
            (self, JoinStepModel::Over(Err(JoinError::Downed)))
        } else {
            (
                JoinPassModel { left: self.left.remove(0), ..self },
                JoinStepModel::Try(self.left[0]),
            )
        }
    }

    /// The outcome of an attempt taken. Anything but a clear answer, while a cluster is pinned, ends
    /// the pass with that cluster seen.
    pub open spec fn tried(
        self,
        downed: bool,
        pinned: Option<SocketAddr>,
        seed: SocketAddr,
        result: Result<(), ConnectError>,
    ) -> (JoinPassModel, JoinStepModel) {
        match result {
            Ok(_) => (self, JoinStepModel::Over(Ok(JoinRoundModel::Joined))),
            Err(ConnectError::Refused(RefusalReason::Down)) | Err(ConnectError::SelfDowned) => (
                self,
                JoinStepModel::Over(Err(JoinError::Downed)),
            ),
            Err(ConnectError::Refused(RefusalReason::NoCluster)) => JoinPassModel {
                outcomes: self.outcomes.push((seed, JoinOutcome::NoCluster)),
                ..self
            }.next(downed),
            Err(_) => match pinned {
                Some(addr) => (self, JoinStepModel::Over(Ok(JoinRoundModel::ClusterSeen(addr)))),
                None => JoinPassModel {
                    outcomes: self.outcomes.push((seed, JoinOutcome::Unavailable)),
                    ..self
                }.next(downed),
            },
        }
    }
}

impl JoinPass {
    /// Begins a pass over the seeds.
    pub fn begin<H, S, R, D: FailureDetector, F: FailureDetectorFactory<D>>(
        endpoint: &Endpoint<H, S, R, D, F>,
        seeds: &Vec<SocketAddr>,
    ) -> (pass: Self)
        ensures
            pass@ == JoinPassModel::over(
                endpoint@.coordinator.pinned,
                seeds@,
                endpoint@.node.addr,
            ),
    {
        let left = match endpoint.pinned_cluster() {
            Some(pinned) => {
                let mut only: Vec<SocketAddr> = Vec::new();
                only.push(pinned);
                assert(only@ =~= seq![pinned]);
                only
            },
            None => without_addr(seeds, endpoint.node.addr),
        };
        JoinPass { left, outcomes: Vec::new() }
    }

    fn copy_outcomes(&self) -> (outcomes: Vec<(SocketAddr, JoinOutcome)>)
        ensures
            outcomes@ == self@.outcomes,
    {
        let mut copy: Vec<(SocketAddr, JoinOutcome)> = Vec::new();
        let mut i: usize = 0;
        while i < self.outcomes.len()
            invariant
                i <= self.outcomes@.len(),
                copy@ =~= self.outcomes@.take(i as int),
            decreases self.outcomes@.len() - i,
        {
            copy.push(self.outcomes[i]);
            i = i + 1;
        }
        copy
    }

    /// What the pass does next.
    pub fn next<H, S, R, D: FailureDetector, F: FailureDetectorFactory<D>>(
        &mut self,
        endpoint: &Endpoint<H, S, R, D, F>,
    ) -> (step: JoinStep)
        ensures
            final(self)@ == old(self)@.next(endpoint@.is_downed()).0,
            step@ == old(self)@.next(endpoint@.is_downed()).1,
    {
        if self.left.len() == 0 {
            let outcomes = self.copy_outcomes();
            return JoinStep::Over(Ok(JoinRound::NoAdmission(outcomes)));
        }
        if endpoint.downed() {
            return JoinStep::Over(Err(JoinError::Downed));
        }
        let seed = self.left.remove(0);
        JoinStep::Try(seed)
    }

    /// Takes the outcome of an attempt.
    pub fn on_tried<H, S, R, D: FailureDetector, F: FailureDetectorFactory<D>>(
        &mut self,
        endpoint: &Endpoint<H, S, R, D, F>,
        seed: SocketAddr,
        result: Result<(), ConnectError>,
    ) -> (step: JoinStep)
        ensures
            (final(self)@, step@) == old(self)@.tried(
                endpoint@.is_downed(),
                endpoint@.coordinator.pinned,
                seed,
                result,
            ),
    {
        match result {
            Ok(_) => JoinStep::Over(Ok(JoinRound::Joined)),
            Err(ConnectError::Refused(RefusalReason::Down)) => JoinStep::Over(
                Err(JoinError::Downed),
            ),
            Err(ConnectError::SelfDowned) => JoinStep::Over(Err(JoinError::Downed)),
            Err(ConnectError::Refused(RefusalReason::NoCluster)) => {
                self.outcomes.push((seed, JoinOutcome::NoCluster));
                self.next(endpoint)
            },
            Err(_) => match endpoint.pinned_cluster() {
                Some(pinned) => JoinStep::Over(Ok(JoinRound::ClusterSeen(pinned))),
                None => {
                    self.outcomes.push((seed, JoinOutcome::Unavailable));
                    self.next(endpoint)
                },
            },
        }
    }
}

impl<H, S, R, D: FailureDetector, F: FailureDetectorFactory<D>> Endpoint<H, S, R, D, F> {
    /// Takes the answer to a Join handshake. It proves a cluster is there which may count this node,
    /// whether or not its snapshot arrives, so that cluster is pinned.
    pub fn on_join_answered(
        &mut self,
        addr: SocketAddr,
        answer: Result<(NodeId, HandshakeIntent), ConnectError>,
        identity: &Option<PeerIdentity>,
    ) -> (r: Result<NodeId, ConnectError>)
        requires
            old(self).wf(),
        ensures
            final(self).wf(),
            match answer {
                Err(error) => r == Err::<NodeId, ConnectError>(error) && final(self)@ == old(self)@,
                Ok((peer, _)) => match old(self)@.answer_refusal(peer, addr, *identity) {
                    Some(error) => r == Err::<NodeId, ConnectError>(error) && final(self)@ == old(
                        self)@,
                    None => {
                        &&& r == Ok::<NodeId, ConnectError>(peer)
                        &&& final(self)@ == old(self)@.pinning(addr)
                    },
                },
            },
    {
        match answer {
            Err(error) => Err(error),
            Ok((peer, _)) => {
                if let Err(error) = self.check_answer(peer, addr, identity) {
                    return Err(error);
                }
                self.pin_cluster(addr);
                Ok(peer)
            },
        }
    }
}

impl<H, S, R, D: FailureDetector> EndpointModel<H, S, R, D> {
    pub open spec fn pinning(self, addr: SocketAddr) -> EndpointModel<H, S, R, D> {
        if self.is_downed() {
            self
        } else {
            EndpointModel {
                coordinator: crate::cluster::coordinator::Coordinator {
                    pinned: Some(addr),
                    ..self.coordinator
                },
                ..self
            }
        }
    }
}

/// The snapshot a joining node receives, page by page. It is applied as one: a connection lost in
/// the middle leaves no fragment behind.
#[derive(Debug)]
pub struct JoinSnapshot {
    pub members: Vec<WireMember>,
}

/// A frame of a snapshot taken: whether it was the last one, or why there is no snapshot.
pub open spec fn paged(members: Seq<Member>, frame: FrameModel) -> (
    Seq<Member>,
    Result<bool, ConnectError>,
) {
    match frame {
        FrameModel::Gossip { members: page, more } => (members + page, Ok(!more)),
        FrameModel::Refused { reason } => (members, Err(ConnectError::Refused(reason))),
        _ => (members, Err(ConnectError::NotAHandshake)),
    }
}

pub open spec fn page_received(
    members: Seq<Member>,
    received: Result<Option<Seq<u8>>, TransportError>,
) -> (Seq<Member>, Result<bool, ConnectError>) {
    match received {
        Err(error) => (members, Err(ConnectError::Transport(error))),
        Ok(None) => (members, Err(ConnectError::Closed)),
        Ok(Some(bytes)) => match Frame::read(bytes, 0) {
            Err(error) => (members, Err(ConnectError::Decode(error))),
            Ok((frame, _)) => paged(members, frame),
        },
    }
}

impl JoinSnapshot {
    pub fn new() -> (snapshot: Self)
        ensures
            snapshot.members@ == Seq::<Member>::empty(),
    {
        JoinSnapshot { members: Vec::new() }
    }

    /// Takes what was received; whether the snapshot is complete.
    pub fn on_page(&mut self, received: Result<Option<Vec<u8>>, TransportError>) -> (r: Result<
        bool,
        ConnectError,
    >)
        ensures
            (final(self).members@, r) == page_received(
                old(self).members@,
                crate::cluster::connect::received_view(received),
            ),
    {
        match received {
            Err(error) => Err(ConnectError::Transport(error)),
            Ok(None) => Err(ConnectError::Closed),
            Ok(Some(bytes)) => match Frame::from_bytes(bytes.as_slice()) {
                Err(error) => Err(ConnectError::Decode(error)),
                Ok(Frame::Gossip { members, more }) => {
                    assert(members.deep_view() =~= members@);
                    let mut page = members;
                    self.members.append(&mut page);
                    Ok(!more)
                },
                Ok(Frame::Refused { reason }) => Err(ConnectError::Refused(reason)),
                Ok(_) => Err(ConnectError::NotAHandshake),
            },
        }
    }
}

/// Frames taken as the pages of a snapshot, up to the last one.
pub open spec fn pages(members: Seq<Member>, frames: Seq<FrameModel>) -> (
    Seq<Member>,
    Result<bool, ConnectError>,
)
    decreases frames.len(),
{
    if frames.len() == 0 {
        (members, Ok(false))
    } else {
        let (so_far, r) = paged(members, frames[0]);
        if r == Ok::<bool, ConnectError>(false) {
            pages(so_far, frames.skip(1))
        } else {
            (so_far, r)
        }
    }
}

proof fn lemma_pages(all: Seq<Seq<Member>>, frames: Seq<FrameModel>, from: int, members: Seq<Member>)
    requires
        0 <= from < all.len(),
        frames.len() == all.len(),
        forall|i: int|
            0 <= i < all.len() ==> #[trigger] frames[i] == (FrameModel::Gossip {
                members: all[i],
                more: i + 1 < all.len(),
            }),
    ensures
        pages(members, frames.skip(from)) == (
            members + joined(all.skip(from)),
            Ok::<bool, ConnectError>(true),
        ),
    decreases all.len() - from,
{
    let rest = frames.skip(from);
    assert(rest[0] == frames[from]);
    assert(all.skip(from)[0] == all[from]);
    assert(all.skip(from).skip(1) =~= all.skip(from + 1));
    if from + 1 < all.len() {
        lemma_pages(all, frames, from + 1, members + all[from]);
        assert(rest.skip(1) =~= frames.skip(from + 1));
    }
    assert(members + (all[from] + joined(all.skip(from + 1))) =~= members + all[from] + joined(
        all.skip(from + 1),
    ));
    if from + 1 == all.len() {
        assert(joined(all.skip(from + 1)) =~= Seq::<Member>::empty());
        assert(members + all[from] + Seq::<Member>::empty() =~= members + all[from]);
    }
}

/// A snapshot sent in gossip frames is received whole: the pages join to the members, and the last
/// frame is the one which completes them.
pub proof fn a_snapshot_is_received_whole(members: Seq<Member>, n: nat)
    requires
        n > 0,
    ensures
        pages(Seq::empty(), gossip_frames(members, n)) == (
            members,
            Ok::<bool, ConnectError>(true),
        ),
{
    let frames = gossip_frames(members, n);
    if members.len() <= n {
        assert(frames[0] == (FrameModel::Gossip { members, more: false }));
        assert(Seq::<Member>::empty() + members =~= members);
    } else {
        let all = chunked(members, n);
        chunks_join_to_the_whole(members, n);
        lemma_pages(all, frames, 0, Seq::empty());
        assert(frames.skip(0) =~= frames);
        assert(all.skip(0) =~= all);
        assert(Seq::<Member>::empty() + members =~= members);
    }
}

/// Once a cluster is pinned, nothing else is tried.
pub proof fn a_pinned_cluster_is_the_only_seed(
    pinned: SocketAddr,
    seeds: Seq<SocketAddr>,
    own: SocketAddr,
)
    ensures
        JoinPassModel::over(Some(pinned), seeds, own).left == seq![pinned],
{
}

/// This node never dials itself to join.
pub proof fn a_node_never_joins_itself(seeds: Seq<SocketAddr>, own: SocketAddr)
    ensures
        !JoinPassModel::over(None, seeds, own).left.contains(own),
{
    broadcast use vstd::seq_lib::group_filter_ensures;

    let left = seeds.filter(is_other(own));
    if left.contains(own) {
        crate::seqs::lemma_filter_contains(seeds, is_other(own), own);
    }
}

/// A pass tries the seeds in their order, without this node's own address and, once a cluster is
/// pinned, that one alone.
pub proof fn a_pass_tries_the_seeds_in_order(
    pinned: Option<SocketAddr>,
    seeds: Seq<SocketAddr>,
    own: SocketAddr,
)
    ensures
        ({
            let pass = JoinPassModel::over(pinned, seeds, own);
            &&& pass.outcomes.len() == 0
            &&& pinned matches Some(addr) ==> pass.left == seq![addr]
            &&& pinned is None ==> pass.left == seeds.filter(|seed: SocketAddr| seed != own)
        }),
{
    assert(is_other(own) =~= (|seed: SocketAddr| seed != own));
}

/// The next seed is tried until none is left, which ends the pass with what every seed answered; a
/// node downed meanwhile tries no further.
pub proof fn a_pass_ends_with_its_outcomes(pass: JoinPassModel, downed: bool)
    ensures
        ({
            let (after, step) = pass.next(downed);
            &&& pass.left.len() == 0 ==> after == pass && step == JoinStepModel::Over(
                Ok(JoinRoundModel::NoAdmission(pass.outcomes)),
            )
            &&& pass.left.len() > 0 && downed ==> after == pass && step == JoinStepModel::Over(
                Err(JoinError::Downed),
            )
            &&& pass.left.len() > 0 && !downed ==> {
                &&& step matches JoinStepModel::Try(seed) && seq![seed] + after.left == pass.left
                &&& after.outcomes == pass.outcomes
            }
        }),
{
    if pass.left.len() > 0 {
        assert(seq![pass.left[0]] + pass.left.remove(0) =~= pass.left);
    }
}

/// What an attempt does to its pass: an admission ends it, and so does a refusal of this incarnation;
/// a seed without a cluster is noted as such and the next one tried. Any other failure ends the pass
/// if a cluster was seen meanwhile, and is noted as unavailable if not.
pub proof fn an_attempt_is_noted(
    pass: JoinPassModel,
    downed: bool,
    pinned: Option<SocketAddr>,
    seed: SocketAddr,
    result: Result<(), ConnectError>,
)
    ensures
        ({
            let (after, step) = pass.tried(downed, pinned, seed, result);
            let refused = result == Err::<(), ConnectError>(
                ConnectError::Refused(RefusalReason::Down),
            ) || result == Err::<(), ConnectError>(ConnectError::SelfDowned);
            let none = result == Err::<(), ConnectError>(
                ConnectError::Refused(RefusalReason::NoCluster),
            );
            let noted = |outcome: JoinOutcome|
                JoinPassModel {
                    left: pass.left,
                    outcomes: pass.outcomes + seq![(seed, outcome)],
                };
            &&& result is Ok ==> after == pass && step == JoinStepModel::Over(
                Ok(JoinRoundModel::Joined),
            )
            &&& refused ==> after == pass && step == JoinStepModel::Over(Err(JoinError::Downed))
            &&& none ==> (after, step) == noted(JoinOutcome::NoCluster).next(downed)
            &&& result is Err && !refused && !none && pinned is Some ==> after == pass && step
                == JoinStepModel::Over(Ok(JoinRoundModel::ClusterSeen(pinned->0)))
            &&& result is Err && !refused && !none && pinned is None ==> (after, step) == noted(
                JoinOutcome::Unavailable,
            ).next(downed)
        }),
{
    assert(pass.outcomes.push((seed, JoinOutcome::NoCluster)) =~= pass.outcomes + seq![
        (seed, JoinOutcome::NoCluster),
    ]);
    assert(pass.outcomes.push((seed, JoinOutcome::Unavailable)) =~= pass.outcomes + seq![
        (seed, JoinOutcome::Unavailable),
    ]);
}

/// A page of a member list is added behind those before it and says whether it is the last; a refusal
/// ends the transfer with its reason, and so does any other frame.
pub proof fn pages_are_added_up(members: Seq<Member>, frame: FrameModel)
    ensures
        ({
            let (after, r) = paged(members, frame);
            &&& frame matches FrameModel::Gossip { members: page, more } ==> after == members + page
                && r == Ok::<bool, ConnectError>(!more)
            &&& !(frame is Gossip) ==> after == members
            &&& frame matches FrameModel::Refused { reason } ==> r == Err::<bool, ConnectError>(
                ConnectError::Refused(reason),
            )
            &&& !(frame is Gossip) && !(frame is Refused) ==> r == Err::<bool, ConnectError>(
                ConnectError::NotAHandshake,
            )
        }),
{
}

/// A cluster which answered is pinned, in place of whatever was, unless this node is downed.
pub proof fn a_cluster_which_answered_is_pinned<H, S, R, D: FailureDetector>(
    endpoint: EndpointModel<H, S, R, D>,
    addr: SocketAddr,
)
    ensures
        endpoint.is_downed() ==> endpoint.pinning(addr) == endpoint,
        !endpoint.is_downed() ==> {
            let after = endpoint.pinning(addr);
            &&& after.coordinator.pinned == Some(addr)
            &&& after.coordinator.lifecycle == endpoint.coordinator.lifecycle
            &&& after.coordinator.join_in_flight == endpoint.coordinator.join_in_flight
            &&& after == (EndpointModel { coordinator: after.coordinator, ..endpoint })
        },
{
}

} // verus!
