//! Connections which cannot be established, and what can be done about them.

use vstd::prelude::*;

use crate::addr::{IpAddr, SocketAddr};
use crate::cluster::frame::{Frame, FrameModel, Handshake, HandshakeError, HandshakeIntent,
    RefusalReason};
use crate::cluster::transport::{PeerIdentity, TransportError};
use crate::ids::NodeId;
use crate::wire::{DecodeError, Wire};

verus! {

/// A connection which cannot be established. A transport failure or a silent peer is transient,
/// everything else is final.
#[derive(Debug, Clone, PartialEq, Eq)]
pub enum ConnectError {
    /// The transport failed.
    Transport(TransportError),
    /// The connection was closed before the handshake.
    Closed,
    /// Opening so many data streams timed out.
    DataStreams(usize),
    /// Exchanging the handshakes timed out.
    HandshakeTimeout,
    /// The first frame is not a handshake.
    NotAHandshake,
    /// The handshake cannot be decoded.
    Decode(DecodeError),
    /// The peer speaks another protocol.
    Handshake(HandshakeError),
    /// The peer refused the handshake.
    Refused(RefusalReason),
    /// The peer's identity does not cover its advertised address.
    Identity,
    /// The node dialed advertises another address.
    AddressMismatch { advertised: SocketAddr, dialed: SocketAddr },
    /// This node has been downed.
    SelfDowned,
    /// The join attempt was abandoned by its caller.
    Abandoned,
    /// A dead node incarnation.
    Dead,
}

impl ConnectError {
    /// Trying again may help. A refusal as an unknown member is one such: gossip may not have
    /// reached the peer yet. So is one from a node which is in no cluster yet.
    pub open spec fn retryable(self) -> bool {
        match self {
            ConnectError::Transport(TransportError::FrameTooLarge { .. }) => false,
            ConnectError::Transport(_) => true,
            ConnectError::Closed => true,
            ConnectError::DataStreams(_) => true,
            ConnectError::HandshakeTimeout => true,
            ConnectError::Refused(RefusalReason::UnknownMember) => true,
            ConnectError::Refused(RefusalReason::NoCluster) => true,
            _ => false,
        }
    }

    /// Whether trying again may help.
    pub fn is_retryable(&self) -> (r: bool)
        ensures
            r == self.retryable(),
    {
        match self {
            ConnectError::Transport(TransportError::FrameTooLarge { .. }) => false,
            ConnectError::Transport(_) => true,
            ConnectError::Closed => true,
            ConnectError::DataStreams(_) => true,
            ConnectError::HandshakeTimeout => true,
            ConnectError::Refused(RefusalReason::UnknownMember) => true,
            ConnectError::Refused(RefusalReason::NoCluster) => true,
            _ => false,
        }
    }
}

/// The identity vouches for the address: without one every address is, with one those it names.
/// Names prove nothing about an address.
pub open spec fn binds(identity: Option<PeerIdentity>, ip: IpAddr) -> bool {
    identity matches Some(identity) ==> identity.ip_addresses@.contains(ip)
}

/// Whether the peer's identity vouches for the address it advertises.
pub fn identity_binds(peer: NodeId, identity: &Option<PeerIdentity>) -> (r: bool)
    ensures
        r == binds(*identity, peer.addr.spec_ip()),
{
    match identity {
        Some(proven) => {
            let ip = peer.addr.ip();
            let mut i: usize = 0;
            while i < proven.ip_addresses.len()
                invariant
                    ip == peer.addr.spec_ip(),
                    *identity == Some(*proven),
                    i <= proven.ip_addresses@.len(),
                    forall|j: int| 0 <= j < i ==> #[trigger] proven.ip_addresses@[j] != ip,
                decreases proven.ip_addresses@.len() - i,
            {
                if proven.ip_addresses[i] == ip {
                    return true;
                }
                i = i + 1;
            }
            false
        },
        None => true,
    }
}

/// What the first frame of a connection amounts to.
pub open spec fn handshake_in(received: Result<Option<Seq<u8>>, TransportError>) -> Result<
    (NodeId, HandshakeIntent),
    ConnectError,
> {
    match received {
        Err(e) => Err(ConnectError::Transport(e)),
        Ok(None) => Err(ConnectError::Closed),
        Ok(Some(bytes)) => match Frame::read(bytes, 0) {
            Err(e) => Err(ConnectError::Decode(e)),
            Ok((FrameModel::Handshake(handshake), _)) => match handshake.validated() {
                Ok(handshaked) => Ok(handshaked),
                Err(e) => Err(ConnectError::Handshake(e)),
            },
            Ok((FrameModel::Refused { reason }, _)) => Err(ConnectError::Refused(reason)),
            Ok(_) => Err(ConnectError::NotAHandshake),
        },
    }
}

pub open spec fn received_view(received: Result<Option<Vec<u8>>, TransportError>) -> Result<
    Option<Seq<u8>>,
    TransportError,
> {
    match received {
        Ok(Some(bytes)) => Ok(Some(bytes@)),
        Ok(None) => Ok(None),
        Err(e) => Err(e),
    }
}

/// The handshake a connection opened with.
pub fn recv_handshake(received: Result<Option<Vec<u8>>, TransportError>) -> (r: Result<
    (NodeId, HandshakeIntent),
    ConnectError,
>)
    ensures
        r == handshake_in(received_view(received)),
{
    match received {
        Err(e) => Err(ConnectError::Transport(e)),
        Ok(None) => Err(ConnectError::Closed),
        Ok(Some(bytes)) => match Frame::from_bytes(bytes.as_slice()) {
            Err(e) => Err(ConnectError::Decode(e)),
            Ok(Frame::Handshake(handshake)) => match handshake.validate() {
                Ok(handshaked) => Ok(handshaked),
                Err(e) => Err(ConnectError::Handshake(e)),
            },
            Ok(Frame::Refused { reason }) => Err(ConnectError::Refused(reason)),
            Ok(_) => Err(ConnectError::NotAHandshake),
        },
    }
}

/// The frame which opens a connection.
pub fn send_handshake(node: NodeId, intent: HandshakeIntent) -> (bytes: Vec<u8>)
    ensures
        bytes@ == Frame::encoding(FrameModel::Handshake(Handshake::of(node, intent))),
{
    Frame::Handshake(Handshake::new(node, intent)).encode_into(Vec::new())
}

/// What a handshake sends is what its peer receives, if the advertised address travels whole.
pub proof fn handshakes_are_understood(node: NodeId, intent: HandshakeIntent)
    requires
        NodeId::is_whole(node),
    ensures
        handshake_in(
            Ok(
                Some(Frame::encoding(FrameModel::Handshake(Handshake::of(node, intent)))),
            ),
        ) == Ok::<(NodeId, HandshakeIntent), ConnectError>((node, intent)),
{
    let frame = FrameModel::Handshake(Handshake::of(node, intent));
    crate::cluster::frame::frames_round_trip(frame, Seq::empty());
    assert(Frame::encoding(frame) + Seq::<u8>::empty() =~= Frame::encoding(frame));
}

/// Dialing is worth another try where the connection failed or the peer may take this node later; an
/// address which answered anything else will not change its mind.
pub proof fn what_may_pass_is_tried_again(error: ConnectError)
    ensures
        error.retryable() <==> {
            ||| error is Closed
            ||| error is DataStreams
            ||| error is HandshakeTimeout
            ||| error == ConnectError::Refused(RefusalReason::UnknownMember)
            ||| error == ConnectError::Refused(RefusalReason::NoCluster)
            ||| (error is Transport && !(error->Transport_0 is FrameTooLarge))
        },
{
}

/// A proven identity binds the addresses it names and no others; where none is proven, nothing is
/// bound.
pub proof fn an_identity_binds_its_addresses(identity: Option<PeerIdentity>, ip: IpAddr)
    ensures
        identity is None ==> binds(identity, ip),
        identity matches Some(proven) ==> (binds(identity, ip) <==> exists|i: int|
            0 <= i < proven.ip_addresses@.len() && #[trigger] proven.ip_addresses@[i] == ip),
{
}

} // verus!
