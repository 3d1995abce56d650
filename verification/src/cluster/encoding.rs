//! How addresses and identities travel.

use vstd::prelude::*;

use crate::addr::SocketAddr;
use crate::ids::{ActorId, Incarnation, Nonce, NodeId};
use crate::wire::{identity_encoding, lemma_be_caps, lemma_be_len, lemma_be_reads_back,
    lemma_cap_values, lemma_holds_add, lemma_identity_advances, lemma_identity_reads_back,
    lemma_varint_len, map_read, put_be, put_identity, read_be, read_identity, take_be,
    take_identity, varint, be_bytes, DecodeError, Wire};

verus! {

impl DeepView for SocketAddr {
    type V = SocketAddr;

    open spec fn deep_view(&self) -> SocketAddr {
        *self
    }
}

impl DeepView for NodeId {
    type V = NodeId;

    open spec fn deep_view(&self) -> NodeId {
        *self
    }
}

impl DeepView for Incarnation {
    type V = Incarnation;

    open spec fn deep_view(&self) -> Incarnation {
        *self
    }
}

impl DeepView for ActorId {
    type V = ActorId;

    open spec fn deep_view(&self) -> ActorId {
        *self
    }
}

impl DeepView for Nonce {
    type V = Nonce;

    open spec fn deep_view(&self) -> Nonce {
        *self
    }
}

/// The variant of the IP version, the octets of the address and the port. Flow information and
/// scope do not travel.
impl Wire for SocketAddr {
    open spec fn encoding(v: SocketAddr) -> Seq<u8> {
        match v {
            SocketAddr::V4 { ip, port } => varint(0) + (be_bytes(ip as nat, 4) + varint(
                port as nat,
            )),
            SocketAddr::V6 { ip, port, .. } => varint(1) + (be_bytes(ip as nat, 16) + varint(
                port as nat,
            )),
        }
    }

    open spec fn read(s: Seq<u8>, at: int) -> Result<(SocketAddr, int), DecodeError> {
        match <u32 as Wire>::read(s, at) {
            Ok((tag, mid)) => if tag == 0 {
                match read_be(s, mid, 4) {
                    Ok((ip, end)) => map_read(
                        <u16 as Wire>::read(s, end),
                        |port: u16| SocketAddr::V4 { ip: ip as u32, port },
                    ),
                    Err(e) => Err(e),
                }
            } else if tag == 1 {
                match read_be(s, mid, 16) {
                    Ok((ip, end)) => map_read(
                        <u16 as Wire>::read(s, end),
                        |port: u16|
                            SocketAddr::V6 { ip: ip as u128, port, flowinfo: 0, scope_id: 0 },
                    ),
                    Err(e) => Err(e),
                }
            } else {
                Err(DecodeError::UnknownVariant)
            },
            Err(e) => Err(e),
        }
    }

    open spec fn is_whole(v: SocketAddr) -> bool {
        v matches SocketAddr::V6 { flowinfo, scope_id, .. } ==> flowinfo == 0 && scope_id == 0
    }

    proof fn reads_back(s: Seq<u8>, at: int, v: SocketAddr) {
        lemma_be_caps();
        let (tag, ip, width, port) = match v {
            SocketAddr::V4 { ip, port } => (0u32, ip as nat, 4nat, port),
            SocketAddr::V6 { ip, port, .. } => (1u32, ip as nat, 16nat, port),
        };
        lemma_holds_add(s, at, varint(tag as nat), be_bytes(ip, width) + varint(port as nat));
        let mid = at + varint(tag as nat).len();
        lemma_holds_add(s, mid, be_bytes(ip, width), varint(port as nat));
        <u32 as Wire>::reads_back(s, at, tag);
        lemma_be_len(ip, width);
        lemma_be_reads_back(s, mid, ip, width);
        <u16 as Wire>::reads_back(s, mid + width, port);
    }

    proof fn advances(s: Seq<u8>, at: int) {
        <u32 as Wire>::advances(s, at);
        if let Ok((tag, mid)) = <u32 as Wire>::read(s, at) {
            if mid + 4 <= s.len() {
                <u16 as Wire>::advances(s, mid + 4);
            }
            if mid + 16 <= s.len() {
                <u16 as Wire>::advances(s, mid + 16);
            }
        }
    }

    fn put(&self, out: &mut Vec<u8>) {
        match self {
            SocketAddr::V4 { ip, port } => {
                0u32.put(out);
                put_be(*ip as u128, 4, out);
                port.put(out);
            },
            SocketAddr::V6 { ip, port, .. } => {
                1u32.put(out);
                put_be(*ip, 16, out);
                port.put(out);
            },
        }
        assert(out@ =~= old(out)@ + Self::encoding(*self));
    }

    fn take(bytes: &[u8], at: usize) -> (r: Result<(Self, usize), DecodeError>) {
        let (tag, mid) = match u32::take(bytes, at) {
            Ok(r) => r,
            Err(e) => {
                return Err(e);
            },
        };
        proof {
            <u32 as Wire>::advances(bytes@, at as int);
            lemma_be_caps();
        }
        if tag == 0 {
            match take_be(bytes, mid, 4) {
                Ok((ip, end)) => match u16::take(bytes, end) {
                    Ok((port, end)) => Ok((SocketAddr::V4 { ip: ip as u32, port }, end)),
                    Err(e) => Err(e),
                },
                Err(e) => Err(e),
            }
        } else if tag == 1 {
            match take_be(bytes, mid, 16) {
                Ok((ip, end)) => match u16::take(bytes, end) {
                    Ok((port, end)) => Ok(
                        (SocketAddr::V6 { ip, port, flowinfo: 0, scope_id: 0 }, end),
                    ),
                    Err(e) => Err(e),
                },
                Err(e) => Err(e),
            }
        } else {
            Err(DecodeError::UnknownVariant)
        }
    }
}

impl Wire for Incarnation {
    open spec fn encoding(v: Incarnation) -> Seq<u8> {
        identity_encoding(v.0)
    }

    open spec fn read(s: Seq<u8>, at: int) -> Result<(Incarnation, int), DecodeError> {
        map_read(read_identity(s, at), |v: u128| Incarnation(v))
    }

    open spec fn is_whole(v: Incarnation) -> bool {
        true
    }

    proof fn reads_back(s: Seq<u8>, at: int, v: Incarnation) {
        lemma_identity_reads_back(s, at, v.0);
    }

    proof fn advances(s: Seq<u8>, at: int) {
        lemma_identity_advances(s, at);
    }

    fn put(&self, out: &mut Vec<u8>) {
        put_identity(self.0, out);
    }

    fn take(bytes: &[u8], at: usize) -> (r: Result<(Self, usize), DecodeError>) {
        match take_identity(bytes, at) {
            Ok((v, end)) => Ok((Incarnation(v), end)),
            Err(e) => Err(e),
        }
    }
}

impl Wire for ActorId {
    open spec fn encoding(v: ActorId) -> Seq<u8> {
        identity_encoding(v.0)
    }

    open spec fn read(s: Seq<u8>, at: int) -> Result<(ActorId, int), DecodeError> {
        map_read(read_identity(s, at), |v: u128| ActorId(v))
    }

    open spec fn is_whole(v: ActorId) -> bool {
        true
    }

    proof fn reads_back(s: Seq<u8>, at: int, v: ActorId) {
        lemma_identity_reads_back(s, at, v.0);
    }

    proof fn advances(s: Seq<u8>, at: int) {
        lemma_identity_advances(s, at);
    }

    fn put(&self, out: &mut Vec<u8>) {
        put_identity(self.0, out);
    }

    fn take(bytes: &[u8], at: usize) -> (r: Result<(Self, usize), DecodeError>) {
        match take_identity(bytes, at) {
            Ok((v, end)) => Ok((ActorId(v), end)),
            Err(e) => Err(e),
        }
    }
}

impl Wire for Nonce {
    open spec fn encoding(v: Nonce) -> Seq<u8> {
        <u64 as Wire>::encoding(v.0)
    }

    open spec fn read(s: Seq<u8>, at: int) -> Result<(Nonce, int), DecodeError> {
        map_read(<u64 as Wire>::read(s, at), |v: u64| Nonce(v))
    }

    open spec fn is_whole(v: Nonce) -> bool {
        true
    }

    proof fn reads_back(s: Seq<u8>, at: int, v: Nonce) {
        <u64 as Wire>::reads_back(s, at, v.0);
    }

    proof fn advances(s: Seq<u8>, at: int) {
        <u64 as Wire>::advances(s, at);
    }

    fn put(&self, out: &mut Vec<u8>) {
        self.0.put(out);
    }

    fn take(bytes: &[u8], at: usize) -> (r: Result<(Self, usize), DecodeError>) {
        match u64::take(bytes, at) {
            Ok((v, end)) => Ok((Nonce(v), end)),
            Err(e) => Err(e),
        }
    }
}

impl Wire for NodeId {
    open spec fn encoding(v: NodeId) -> Seq<u8> {
        <(SocketAddr, Incarnation) as Wire>::encoding((v.addr, v.incarnation))
    }

    open spec fn read(s: Seq<u8>, at: int) -> Result<(NodeId, int), DecodeError> {
        map_read(
            <(SocketAddr, Incarnation) as Wire>::read(s, at),
            |v: (SocketAddr, Incarnation)| NodeId { addr: v.0, incarnation: v.1 },
        )
    }

    open spec fn is_whole(v: NodeId) -> bool {
        SocketAddr::is_whole(v.addr)
    }

    proof fn reads_back(s: Seq<u8>, at: int, v: NodeId) {
        <(SocketAddr, Incarnation) as Wire>::reads_back(s, at, (v.addr, v.incarnation));
    }

    proof fn advances(s: Seq<u8>, at: int) {
        <(SocketAddr, Incarnation) as Wire>::advances(s, at);
    }

    fn put(&self, out: &mut Vec<u8>) {
        (self.addr, self.incarnation).put(out);
    }

    fn take(bytes: &[u8], at: usize) -> (r: Result<(Self, usize), DecodeError>) {
        match <(SocketAddr, Incarnation) as Wire>::take(bytes, at) {
            Ok(((addr, incarnation), end)) => Ok((NodeId { addr, incarnation }, end)),
            Err(e) => Err(e),
        }
    }
}

/// A node takes at most thirty-seven bytes.
pub proof fn node_encoding_is_short(node: NodeId)
    ensures
        0 < NodeId::encoding(node).len() <= 37,
{
    lemma_cap_values();
    lemma_be_len(node.incarnation.0 as nat, 16);
    lemma_varint_len(16, 0, 127);
    lemma_varint_len(0, 0, 127);
    lemma_varint_len(1, 0, 127);
    match node.addr {
        SocketAddr::V4 { ip, port } => {
            lemma_be_len(ip as nat, 4);
            lemma_varint_len(port as nat, 2, 3);
        },
        SocketAddr::V6 { ip, port, .. } => {
            lemma_be_len(ip as nat, 16);
            lemma_varint_len(port as nat, 2, 3);
        },
    }
}

} // verus!
