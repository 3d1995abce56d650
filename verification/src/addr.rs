//! Socket addresses as plain numbers, ordered as IPv4 before IPv6 and then field by field.

use vstd::prelude::*;

use crate::sort::Ranked;
use crate::table::Ident;

verus! {

/// An IP address, its octets read as one big endian number.
#[derive(Debug, Clone, Copy, PartialEq, Eq, Hash, Structural)]
pub enum IpAddr {
    V4(u32),
    V6(u128),
}

/// The address a node is reached at.
#[allow(inconsistent_fields)]
#[derive(Debug, Clone, Copy, PartialEq, Eq, Hash, Structural)]
pub enum SocketAddr {
    V4 { ip: u32, port: u16 },
    V6 { ip: u128, port: u16, flowinfo: u32, scope_id: u32 },
}

impl SocketAddr {
    /// The IPv4 address of the four octets.
    pub fn v4(a: u8, b: u8, c: u8, d: u8, port: u16) -> (addr: Self)
        ensures
            addr == (SocketAddr::V4 {
                ip: (a * 0x100_0000 + b * 0x1_0000 + c * 0x100 + d) as u32,
                port,
            }),
    {
        let ip: u32 = a as u32 * 0x100_0000 + b as u32 * 0x1_0000 + c as u32 * 0x100 + d as u32;
        SocketAddr::V4 { ip, port }
    }

    /// The IPv6 address of the given number, without flow information and scope.
    pub fn v6(ip: u128, port: u16) -> (addr: Self)
        ensures
            addr == (SocketAddr::V6 { ip, port, flowinfo: 0, scope_id: 0 }),
    {
        SocketAddr::V6 { ip, port, flowinfo: 0, scope_id: 0 }
    }

    pub open spec fn spec_ip(self) -> IpAddr {
        match self {
            SocketAddr::V4 { ip, .. } => IpAddr::V4(ip),
            SocketAddr::V6 { ip, .. } => IpAddr::V6(ip),
        }
    }

    /// The IP address without the port.
    pub fn ip(&self) -> (ip: IpAddr)
        ensures
            ip == self.spec_ip(),
    {
        match *self {
            SocketAddr::V4 { ip, .. } => IpAddr::V4(ip),
            SocketAddr::V6 { ip, .. } => IpAddr::V6(ip),
        }
    }
}

impl Ident for SocketAddr {
    fn same(&self, other: &Self) -> (r: bool) {
        *self == *other
    }
}

impl Ranked for SocketAddr {
    open spec fn before(self, other: Self) -> bool {
        match (self, other) {
            (SocketAddr::V4 { ip: a, port: p }, SocketAddr::V4 { ip: b, port: q }) => {
                a < b || (a == b && p < q)
            },
            (SocketAddr::V4 { .. }, SocketAddr::V6 { .. }) => true,
            (SocketAddr::V6 { .. }, SocketAddr::V4 { .. }) => false,
            (
                SocketAddr::V6 { ip: a, port: p, flowinfo: f, scope_id: s },
                SocketAddr::V6 { ip: b, port: q, flowinfo: g, scope_id: t },
            ) => {
                a < b || (a == b && (p < q || (p == q && (f < g || (f == g && s < t)))))
            },
        }
    }

    fn is_before(&self, other: &Self) -> (r: bool) {
        match (*self, *other) {
            (SocketAddr::V4 { ip: a, port: p }, SocketAddr::V4 { ip: b, port: q }) => {
                a < b || (a == b && p < q)
            },
            (SocketAddr::V4 { .. }, SocketAddr::V6 { .. }) => true,
            (SocketAddr::V6 { .. }, SocketAddr::V4 { .. }) => false,
            (
                SocketAddr::V6 { ip: a, port: p, flowinfo: f, scope_id: s },
                SocketAddr::V6 { ip: b, port: q, flowinfo: g, scope_id: t },
            ) => {
                a < b || (a == b && (p < q || (p == q && (f < g || (f == g && s < t)))))
            },
        }
    }

    proof fn asymmetric(a: Self, b: Self) {
    }

    proof fn negatively_transitive(a: Self, b: Self, c: Self) {
    }
}

/// Two addresses neither of which comes first are the same address.
pub proof fn addr_order_is_total(a: SocketAddr, b: SocketAddr)
    ensures
        a == b || a.before(b) || b.before(a),
{
}

/// The IP address of an address is its own, of its own family.
pub proof fn an_address_has_its_ip(addr: SocketAddr)
    ensures
        addr matches SocketAddr::V4 { ip, .. } ==> addr.spec_ip() == IpAddr::V4(ip),
        addr matches SocketAddr::V6 { ip, .. } ==> addr.spec_ip() == IpAddr::V6(ip),
{
}

/// Addresses are ordered by family, then by IP address, then by port.
pub proof fn addresses_are_ordered_by_ip_and_port(a: SocketAddr, b: SocketAddr)
    ensures
        a is V4 && b is V6 ==> a.before(b) && !b.before(a),
        a is V4 && b is V4 && a->V4_ip < b->V4_ip ==> a.before(b),
        a is V4 && b is V4 && a->V4_ip == b->V4_ip ==> (a.before(b) <==> a->V4_port < b->V4_port),
        a is V6 && b is V6 && a->V6_ip < b->V6_ip ==> a.before(b),
        a is V6 && b is V6 && a->V6_ip == b->V6_ip && a->V6_port < b->V6_port ==> a.before(b),
        a.before(b) ==> !b.before(a),
{
    if a.before(b) {
        SocketAddr::asymmetric(a, b);
    }
}

} // verus!
