//! The identities everything else is keyed by: node incarnations, actors and request nonces.

use vstd::prelude::*;

use crate::addr::{addr_order_is_total, SocketAddr};
use crate::sort::Ranked;
use crate::table::Ident;

verus! {

/// One run of a node's process. A later run at the same address has a greater incarnation.
#[derive(Debug, Clone, Copy, PartialEq, Eq, Hash, Structural)]
pub struct Incarnation(pub u128);

/// A node: the address it advertises together with the incarnation of its process.
#[derive(Debug, Clone, Copy, PartialEq, Eq, Hash, Structural)]
pub struct NodeId {
    pub addr: SocketAddr,
    pub incarnation: Incarnation,
}

/// The identity of one actor, unique across nodes.
#[derive(Debug, Clone, Copy, PartialEq, Eq, Hash, Structural)]
pub struct ActorId(pub u128);

/// Correlates a reply or a lookup answer with its request; unique to the node which minted it.
#[derive(Debug, Clone, Copy, PartialEq, Eq, Hash, Structural)]
pub struct Nonce(pub u64);

/// Calls `uuid::Uuid::now_v7` and hands its bits on as a number. The bits hold the clock and random
/// numbers, so nothing is claimed of them.
#[verifier::external_body]
fn fresh_uuid() -> (bits: u128) {
    uuid::Uuid::now_v7().as_u128()
}

impl NodeId {
    /// A fresh incarnation of the node at the given address.
    pub fn new(addr: SocketAddr) -> (node: Self)
        ensures
            node.addr == addr,
    {
        NodeId { addr, incarnation: Incarnation(fresh_uuid()) }
    }

    pub fn addr(&self) -> (addr: SocketAddr)
        ensures
            addr == self.addr,
    {
        self.addr
    }

    pub fn incarnation(&self) -> (incarnation: Incarnation)
        ensures
            incarnation == self.incarnation,
    {
        self.incarnation
    }

    pub open spec fn fences(self, other: NodeId) -> bool {
        self.addr == other.addr && other.incarnation.0 <= self.incarnation.0
    }

    /// Whether the death of this incarnation is the death of the other one too: the same address
    /// and an incarnation which is not younger.
    pub fn covers(&self, other: NodeId) -> (r: bool)
        ensures
            r == self.fences(other),
    {
        self.addr == other.addr && other.incarnation.0 <= self.incarnation.0
    }
}

impl Incarnation {
    /// Whether this incarnation was started before the other one.
    pub fn older_than(&self, other: Incarnation) -> (r: bool)
        ensures
            r == (self.0 < other.0),
    {
        self.0 < other.0
    }
}

impl ActorId {
    /// A fresh actor identity.
    pub fn new() -> (id: Self) {
        ActorId(fresh_uuid())
    }
}

impl Nonce {
    /// The next nonce of a counter which is advanced past it, wrapping around at its end.
    pub fn mint(next: &mut u64) -> (nonce: Self)
        ensures
            nonce.0 == *old(next),
            *final(next) == if *old(next) == u64::MAX { 0 } else { *old(next) + 1 },
    {
        let minted: u64 = *next;
        *next = if minted == u64::MAX { 0 } else { minted + 1 };
        Nonce(minted)
    }

    /// The first nonce of a counter.
    pub fn first() -> (nonce: Self)
        ensures
            nonce == Nonce(0),
    {
        Nonce(0)
    }

    pub fn as_u64(&self) -> (value: u64)
        ensures
            value == self.0,
    {
        self.0
    }
}

impl Ident for NodeId {
    fn same(&self, other: &Self) -> (r: bool) {
        *self == *other
    }
}

impl Ident for ActorId {
    fn same(&self, other: &Self) -> (r: bool) {
        *self == *other
    }
}

impl Ident for Nonce {
    fn same(&self, other: &Self) -> (r: bool) {
        *self == *other
    }
}

impl Ranked for NodeId {
    open spec fn before(self, other: Self) -> bool {
        self.addr.before(other.addr) || (self.addr == other.addr && self.incarnation.0
            < other.incarnation.0)
    }

    fn is_before(&self, other: &Self) -> (r: bool) {
        self.addr.is_before(&other.addr) || (self.addr == other.addr && self.incarnation.0
            < other.incarnation.0)
    }

    proof fn asymmetric(a: Self, b: Self) {
    }

    proof fn negatively_transitive(a: Self, b: Self, c: Self) {
        addr_order_is_total(a.addr, b.addr);
        addr_order_is_total(b.addr, c.addr);
        addr_order_is_total(a.addr, c.addr);
    }
}

/// Two nodes neither of which comes first are the same node.
pub proof fn node_order_is_total(a: NodeId, b: NodeId)
    ensures
        a == b || a.before(b) || b.before(a),
{
    addr_order_is_total(a.addr, b.addr);
}

/// A fence covers its own incarnation and, with an incarnation, every one that incarnation covers.
pub proof fn fences_are_transitive(a: NodeId, b: NodeId, c: NodeId)
    requires
        a.fences(b),
        b.fences(c),
    ensures
        a.fences(a),
        a.fences(c),
{
}

/// The death of a node covers it and every incarnation before it at its address, and nothing else.
pub proof fn a_fence_covers_its_predecessors(fence: NodeId, node: NodeId)
    ensures
        fence.fences(node) <==> node == fence || (node.addr == fence.addr && node.incarnation.0
            < fence.incarnation.0),
{
}

/// Nodes are ordered by their addresses, and the incarnations at one address by their age.
pub proof fn nodes_are_ordered_by_address_and_incarnation(a: NodeId, b: NodeId)
    ensures
        a.addr != b.addr ==> (a.before(b) <==> a.addr.before(b.addr)),
        a.addr == b.addr ==> (a.before(b) <==> a.incarnation.0 < b.incarnation.0),
{
    crate::addr::addr_order_is_total(a.addr, b.addr);
}

} // verus!
