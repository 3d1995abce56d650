//! What a process asks of its endpoint, which may not have been started.

use vstd::prelude::*;

use crate::addr::SocketAddr;
use crate::cluster::config::{validate, EndpointConfig, StartError};
use crate::cluster::coordinator::{Coordinator, FormError, Lifecycle};
use crate::cluster::endpoint::{next_severance, Endpoint, EndpointModel};
use crate::cluster::failure::{FailureDetector, FailureDetectorFactory};
use crate::cluster::membership::{DownError, Member, MembersError};
use crate::cluster::outbound::OutboundModel;
use crate::cluster::receptionist::{Receptionist, ReceptionistError, Settlement};
use crate::cluster::state::{ChangeModel, Changes, ChangesModel, ClusterState, ClusterStateError};
use crate::ids::NodeId;

verus! {

/// Starts the endpoint of a process, once: an endpoint which is no cluster yet. The transport offers
/// so many data streams, none if it offers no such streams.
pub fn start_endpoint<H, S, R, D: FailureDetector, F: FailureDetectorFactory<D>>(
    endpoint: &mut Option<Endpoint<H, S, R, D, F>>,
    config: EndpointConfig,
    offered: Option<usize>,
    detectors: F,
    at: u128,
) -> (r: Result<(), StartError>)
    ensures
        match config.validated() {
            Err(error) => r == Err::<(), StartError>(StartError::Config(error))
                && *final(endpoint) == *old(endpoint),
            Ok(_) => if *old(endpoint) is Some {
                r == Err::<(), StartError>(StartError::AlreadyStarted) && *final(endpoint) == *old(
                    endpoint)
            } else {
                &&& r == Ok::<(), StartError>(())
                &&& *final(endpoint) matches Some(started) && started.wf() && started@.node.addr
                    == config.advertised_addr && started@ == EndpointModel::<
                    H,
                    S,
                    R,
                    D,
                >::fresh_at(
                    started@.node,
                    config,
                    config.spec_data_streams(offered),
                    detectors.made(),
                    at,
                )
            },
        },
{
    if let Err(error) = validate(&config) {
        return Err(StartError::Config(error));
    }
    if endpoint.is_some() {
        return Err(StartError::AlreadyStarted);
    }
    let node = NodeId::new(config.advertised_addr);
    let streams: usize = config.data_streams(offered);
    *endpoint = Some(Endpoint::new(node, config, streams, detectors, at));
    Ok(())
}

/// Forms a cluster of this node alone.
pub fn form<H, S, R, D: FailureDetector, F: FailureDetectorFactory<D>>(
    endpoint: Option<&mut Endpoint<H, S, R, D, F>>,
) -> (r: Result<(), FormError>)
    requires
        endpoint matches Some(e) ==> e.wf(),
    ensures
        endpoint is None ==> r == Err::<(), FormError>(FormError::EndpointNotStarted),
        endpoint matches Some(e) ==> {
            &&& final(e).wf()
            &&& r == e@.coordinator.can_form()
            &&& final(e)@ == if r is Ok {
                EndpointModel {
                    coordinator: Coordinator { lifecycle: Lifecycle::Formed, ..e@.coordinator },
                    ..e@
                }
            } else {
                e@
            }
        },
{
    match endpoint {
        Some(endpoint) => endpoint.form_cluster(),
        None => Err(FormError::EndpointNotStarted),
    }
}

/// Where the endpoint stands.
pub fn lifecycle<H, S, R, D: FailureDetector, F: FailureDetectorFactory<D>>(
    endpoint: Option<&Endpoint<H, S, R, D, F>>,
) -> (r: Result<Lifecycle, ClusterStateError>)
    ensures
        r == match endpoint {
            Some(e) => Ok::<Lifecycle, ClusterStateError>(e@.coordinator.lifecycle),
            None => Err::<Lifecycle, ClusterStateError>(ClusterStateError::EndpointNotStarted),
        },
{
    match endpoint {
        Some(endpoint) => Ok(endpoint.lifecycle()),
        None => Err(ClusterStateError::EndpointNotStarted),
    }
}

/// The members of the cluster as this node sees them, this node included, ordered by address and
/// incarnation. Down members are listed until their retention expires.
pub fn members<H, S, R, D: FailureDetector, F: FailureDetectorFactory<D>>(
    endpoint: Option<&Endpoint<H, S, R, D, F>>,
) -> (r: Result<Vec<Member>, MembersError>)
    requires
        endpoint matches Some(e) ==> e.wf(),
    ensures
        endpoint is None ==> r == Err::<Vec<Member>, MembersError>(
            MembersError::EndpointNotStarted,
        ),
        endpoint matches Some(e) ==> (r matches Ok(listed) && listed@ == e@.membership.listed()),
{
    match endpoint {
        Some(endpoint) => Ok(endpoint.membership.members()),
        None => Err(MembersError::EndpointNotStarted),
    }
}

/// Downs the Up member at the given address, running its node death.
pub fn down<H, S, R, D: FailureDetector, F: FailureDetectorFactory<D>>(
    endpoint: Option<&mut Endpoint<H, S, R, D, F>>,
    addr: SocketAddr,
    at: u128,
) -> (r: Result<(), DownError>)
    requires
        endpoint matches Some(e) ==> e.wf(),
    ensures
        endpoint is None ==> r == Err::<(), DownError>(DownError::EndpointNotStarted),
        endpoint matches Some(e) ==> {
            &&& final(e).wf()
            &&& match e@.membership.up_member_at(addr) {
                None => r == Err::<(), DownError>(DownError::NotAMember(addr)) && final(e)@ == e@,
                Some(node) => if node == e@.node {
                    r == Err::<(), DownError>(DownError::ThisNode) && final(e)@ == e@
                } else {
                    r == Ok::<(), DownError>(()) && final(e)@ == e@.dead(node, at)
                },
            }
        },
{
    match endpoint {
        Some(endpoint) => match endpoint.membership.up_member_at(addr) {
            None => Err(DownError::NotAMember(addr)),
            Some(node) => {
                if node == endpoint.node {
                    return Err(DownError::ThisNode);
                }
                endpoint.node_death(node, at);
                Ok(())
            },
        },
        None => Err(DownError::EndpointNotStarted),
    }
}

/// Severs every live connection, for tests: frames in flight are lost, lanes keep their queues and
/// reconnect. `false` if the endpoint is not started.
pub fn sever_connections<H, S, R, D: FailureDetector, F: FailureDetectorFactory<D>>(
    endpoint: Option<&mut Endpoint<H, S, R, D, F>>,
) -> (started: bool)
    requires
        endpoint matches Some(e) ==> e.wf(),
    ensures
        started == (endpoint is Some),
        endpoint matches Some(e) ==> final(e).wf() && final(e)@ == (EndpointModel {
            severed: next_severance(e@.severed),
            ..e@
        }),
{
    match endpoint {
        Some(endpoint) => {
            endpoint.sever();
            true
        },
        None => false,
    }
}

/// Arms the endpoint to silently drop the next `count` terminated signals it sends, for tests: the
/// loss the periodic watch refresh must heal. `false` if the endpoint is not started.
pub fn drop_terminated_frames<H, S, R, D: FailureDetector, F: FailureDetectorFactory<D>>(
    endpoint: Option<&mut Endpoint<H, S, R, D, F>>,
    count: u64,
) -> (started: bool)
    requires
        endpoint matches Some(e) ==> e.wf(),
    ensures
        started == (endpoint is Some),
        endpoint matches Some(e) ==> final(e).wf() && final(e)@ == (EndpointModel {
            outbound: OutboundModel { dropped_terminated: count, ..e@.outbound },
            ..e@
        }),
{
    match endpoint {
        Some(endpoint) => {
            endpoint.arm_terminated_drop(count);
            true
        },
        None => false,
    }
}

/// Whether every Up member of this version of the cluster state has delivered its registrations.
pub fn settled(receptionist: Option<&Receptionist>, version: u64) -> (r: Result<
    bool,
    ReceptionistError,
>)
    requires
        receptionist matches Some(x) ==> x.wf(),
    ensures
        r == match receptionist {
            Some(x) => Ok::<bool, ReceptionistError>(
                x@.verdict() == (Settlement { version, settled: true }),
            ),
            None => Err::<bool, ReceptionistError>(ReceptionistError::EndpointNotStarted),
        },
{
    match receptionist {
        Some(receptionist) => Ok(receptionist.settled(version)),
        None => Err(ReceptionistError::EndpointNotStarted),
    }
}

/// The verdict for the current cluster state.
pub fn settlement(receptionist: Option<&mut Receptionist>) -> (r: Result<
    Settlement,
    ReceptionistError,
>)
    requires
        receptionist matches Some(x) ==> x.wf(),
    ensures
        receptionist is None ==> r == Err::<Settlement, ReceptionistError>(
            ReceptionistError::EndpointNotStarted,
        ),
        receptionist matches Some(x) ==> {
            &&& final(x).wf()
            &&& final(x)@ == x@.resettled()
            &&& final(x).subscribed() == x.subscribed()
            &&& r == Ok::<Settlement, ReceptionistError>(x@.verdict())
        },
{
    match receptionist {
        Some(receptionist) => Ok(receptionist.settlement()),
        None => Err(ReceptionistError::EndpointNotStarted),
    }
}

/// This node's current view of the cluster.
pub fn cluster_state(receptionist: Option<&Receptionist>) -> (r: Result<
    ClusterState,
    ClusterStateError,
>)
    ensures
        receptionist is None ==> r == Err::<ClusterState, ClusterStateError>(
            ClusterStateError::EndpointNotStarted,
        ),
        receptionist matches Some(x) ==> (r matches Ok(state) && state@ == x@.state),
{
    match receptionist {
        Some(receptionist) => Ok(receptionist.state().copy()),
        None => Err(ClusterStateError::EndpointNotStarted),
    }
}

/// Starts following every change of this node's view, from the current state and verdict on.
pub fn changes(receptionist: Option<&mut Receptionist>) -> (r: Result<Changes, ClusterStateError>)
    requires
        receptionist matches Some(x) ==> x.wf(),
    ensures
        receptionist is None ==> r == Err::<Changes, ClusterStateError>(
            ClusterStateError::EndpointNotStarted,
        ),
        receptionist matches Some(x) ==> {
            &&& final(x).wf()
            &&& final(x)@ == x@.resettled()
            &&& final(x).subscribed() == x.subscribed()
            &&& r matches Ok(changes)
            &&& changes@ == (ChangesModel {
                queued: seq![ChangeModel::State(x@.state), ChangeModel::Settled(x@.verdict())],
                last_version: x@.state.version,
                last_seq: x@.resettled().seq,
            })
        },
{
    match receptionist {
        Some(receptionist) => {
            let snapshot = receptionist.snapshot();
            let changes = Changes::new(snapshot);
            assert(changes@.queued =~= seq![
                ChangeModel::State(snapshot.state@),
                ChangeModel::Settled(snapshot.settlement),
            ]);
            Ok(changes)
        },
        None => Err(ClusterStateError::EndpointNotStarted),
    }
}

/// Downing an address runs the death of the member Up there, unless that is this node itself; with
/// nobody Up there it fails and changes nothing.
pub proof fn a_member_is_downed_by_its_address<
    H,
    S,
    R,
    D: FailureDetector,
    F: FailureDetectorFactory<D>,
>(
    endpoint: &mut Endpoint<H, S, R, D, F>,
    addr: SocketAddr,
    at: u128,
    r: Result<(), DownError>,
)
    requires
        call_ensures(down::<H, S, R, D, F>, (Some(endpoint), addr, at), r),
    ensures
        ({
            let before = old(endpoint)@;
            let member = before.membership.up_member_at(addr);
            &&& r is Ok <==> member is Some && member != Some(before.node)
            &&& r is Ok ==> final(endpoint)@ == before.dead(member->0, at)
            &&& r is Err ==> final(endpoint)@ == before
            &&& member is None ==> r == Err::<(), DownError>(DownError::NotAMember(addr))
            &&& member == Some(before.node) ==> r == Err::<(), DownError>(DownError::ThisNode)
        }),
{
}

/// An endpoint starts out knowing itself alone, Up and in no cluster, with nothing queued, watched or
/// awaited, and with the limits it is configured to have.
pub proof fn an_endpoint_starts_alone<H, S, R, D: FailureDetector>(
    node: NodeId,
    config: EndpointConfig,
    data_streams: usize,
    fresh: D,
    at: u128,
)
    ensures
        ({
            let started = EndpointModel::<H, S, R, D>::fresh_at(
                node,
                config,
                data_streams,
                fresh,
                at,
            );
            &&& started.node == node && started.config == config && started.fresh == fresh
            &&& started.membership.node == node && started.membership.cap == config.down_watermarks
            &&& started.membership.members.len() == 1 && started.membership.members[0].0 == node
                && started.membership.members[0].1.state
                == crate::cluster::membership::MemberState::Up
                && started.membership.members[0].1.changed_at == at
            &&& started.membership.down.len() == 0
            &&& started.coordinator.lifecycle == Lifecycle::Unformed
                && !started.coordinator.join_in_flight && started.coordinator.pinned is None
            &&& started.outbound.lanes.lanes.dom().len() == 0
            &&& started.outbound.lanes.capacity == config.outbound_capacity
                && started.outbound.lanes.data_streams == data_streams
            &&& started.outbound.refused == Set::<SocketAddr>::empty()
                && started.outbound.dropped_terminated == 0
                && started.outbound.lanes.dials.len() == 0
            &&& started.reachability.node == node && started.reachability.observations.dom().len()
                == 0 && started.reachability.pending.dom().len() == 0
                && started.reachability.forward.dom().len() == 0
                && started.reachability.unreachable_since.dom().len() == 0
            &&& started.watchers.len() == 0 && started.lookups.len() == 0 && started.signals.len()
                == 0 && started.registrations.len() == 0 && started.retired.len() == 0
            &&& started.liveness.dom().len() == 0 && started.wire_watches.dom().len() == 0
                && started.replies.dom().len() == 0
        }),
{
}

} // verus!
