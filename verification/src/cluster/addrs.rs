//! Sets of addresses in order.

use vstd::prelude::*;

use crate::addr::{addr_order_is_total, SocketAddr};
use crate::sort::Ranked;

verus! {

/// A set of addresses, kept in order.
#[derive(Debug)]
pub struct AddrSet {
    pub(crate) addrs: Vec<SocketAddr>,
}

/// Every address comes before those behind it, hence none occurs twice.
pub open spec fn is_ascending(addrs: Seq<SocketAddr>) -> bool {
    forall|i: int, j: int|
        0 <= i < j < addrs.len() ==> (#[trigger] addrs[i]).before(#[trigger] addrs[j])
}

/// The address is in the set and none before it is.
pub open spec fn is_lowest(addrs: Set<SocketAddr>, addr: SocketAddr) -> bool {
    &&& addrs.contains(addr)
    &&& forall|other: SocketAddr| #[trigger] addrs.contains(other) ==> !other.before(addr)
}

impl View for AddrSet {
    type V = Set<SocketAddr>;

    open(crate) spec fn view(&self) -> Set<SocketAddr> {
        self.addrs@.to_set()
    }
}

proof fn lemma_before_trans(a: SocketAddr, b: SocketAddr, c: SocketAddr)
    requires
        a.before(b),
        b.before(c),
    ensures
        a.before(c),
{
}

proof fn lemma_before_irreflexive(a: SocketAddr)
    ensures
        !a.before(a),
{
}

impl AddrSet {
    pub open(crate) spec fn wf(&self) -> bool {
        is_ascending(self.addrs@)
    }

    /// The addresses in order.
    pub open(crate) spec fn listed(&self) -> Seq<SocketAddr> {
        self.addrs@
    }

    /// The addresses in order.
    pub fn as_slice(&self) -> (addrs: &[SocketAddr])
        requires
            self.wf(),
        ensures
            addrs@ == self.listed(),
            is_ascending(addrs@),
            addrs@.to_set() == self@,
    {
        self.addrs.as_slice()
    }

    pub fn new() -> (set: Self)
        ensures
            set.wf(),
            set@ == Set::<SocketAddr>::empty(),
    {
        let set = AddrSet { addrs: Vec::new() };
        assert(set@ =~= Set::<SocketAddr>::empty());
        set
    }

    pub fn contains(&self, addr: SocketAddr) -> (r: bool)
        ensures
            r == self@.contains(addr),
    {
        let mut i: usize = 0;
        while i < self.addrs.len()
            invariant
                i <= self.addrs@.len(),
                forall|j: int| 0 <= j < i ==> #[trigger] self.addrs@[j] != addr,
            decreases self.addrs@.len() - i,
        {
            if self.addrs[i] == addr {
                assert(self.addrs@.contains(addr));
                return true;
            }
            i = i + 1;
        }
        false
    }

    /// Adds an address; whether it was not in the set.
    pub fn insert(&mut self, addr: SocketAddr) -> (added: bool)
        requires
            old(self).wf(),
        ensures
            final(self).wf(),
            added == !old(self)@.contains(addr),
            final(self)@ == old(self)@.insert(addr),
    {
        let ghost before = self.addrs@;
        let mut i: usize = 0;
        while i < self.addrs.len() && self.addrs[i].is_before(&addr)
            invariant
                self.addrs@ == before,
                i <= before.len(),
                forall|j: int| 0 <= j < i ==> (#[trigger] before[j]).before(addr),
            decreases before.len() - i,
        {
            i = i + 1;
        }
        if i < self.addrs.len() && self.addrs[i] == addr {
            proof {
                assert(before.contains(before[i as int]));
                assert(self@ =~= old(self)@.insert(addr));
            }
            return false;
        }
        proof {
            assert forall|j: int| i <= j < before.len() implies addr.before(
                #[trigger] before[j],
            ) by {
                addr_order_is_total(addr, before[i as int]);
                if i < j {
                    lemma_before_trans(addr, before[i as int], before[j]);
                }
            }
            assert(!before.contains(addr)) by {
                if before.contains(addr) {
                    let j = choose|j: int| 0 <= j < before.len() && before[j] == addr;
                    lemma_before_irreflexive(addr);
                    assert(j < i ==> before[j].before(addr));
                    assert(j >= i ==> addr.before(before[j]));
                }
            }
        }
        self.addrs.insert(i, addr);
        proof {
            let after = self.addrs@;
            assert forall|a: int, b: int| 0 <= a < b < after.len() implies (
            #[trigger] after[a]).before(#[trigger] after[b]) by {
                let x = if a < i { a } else { a - 1 };
                let y = if b < i { b } else { b - 1 };
                if a != i && b != i {
                    assert(after[a] == before[x]);
                    assert(after[b] == before[y]);
                } else if a == i {
                    assert(after[b] == before[y]);
                } else {
                    assert(after[a] == before[x]);
                }
            }
            assert(self@ =~= old(self)@.insert(addr)) by {
                assert forall|o: SocketAddr| after.contains(o) == (before.contains(o) || o
                    == addr) by {
                    if after.contains(o) {
                        let k = choose|k: int| 0 <= k < after.len() && after[k] == o;
                        if k < i {
                            assert(before[k] == o);
                        } else if k > i {
                            assert(before[k - 1] == o);
                        }
                    }
                    if before.contains(o) {
                        let k = choose|k: int| 0 <= k < before.len() && before[k] == o;
                        if k < i {
                            assert(after[k] == o);
                        } else {
                            assert(after[k + 1] == o);
                        }
                    }
                    if o == addr {
                        assert(after[i as int] == o);
                    }
                }
            }
        }
        true
    }

    /// Removes an address; whether it was in the set.
    pub fn remove(&mut self, addr: SocketAddr) -> (removed: bool)
        requires
            old(self).wf(),
        ensures
            final(self).wf(),
            removed == old(self)@.contains(addr),
            final(self)@ == old(self)@.remove(addr),
    {
        let ghost before = self.addrs@;
        let mut i: usize = 0;
        while i < self.addrs.len()
            invariant
                self.addrs@ == before,
                is_ascending(before),
                self@ == old(self)@,
                before == old(self).addrs@,
                i <= before.len(),
                forall|j: int| 0 <= j < i ==> #[trigger] before[j] != addr,
            decreases before.len() - i,
        {
            if self.addrs[i] == addr {
                self.addrs.remove(i);
                proof {
                    let after = self.addrs@;
                    assert(before.contains(before[i as int]));
                    assert forall|a: int, b: int| 0 <= a < b < after.len() implies (
                    #[trigger] after[a]).before(#[trigger] after[b]) by {
                        let x = if a < i { a } else { a + 1 };
                        let y = if b < i { b } else { b + 1 };
                        assert(before[x].before(before[y]));
                    }
                    assert forall|o: SocketAddr| after.contains(o) == (before.contains(o) && o
                        != addr) by {
                        if after.contains(o) {
                            let k = choose|k: int| 0 <= k < after.len() && after[k] == o;
                            let x = if k < i { k } else { k + 1 };
                            assert(before[x] == o);
                            lemma_before_irreflexive(addr);
                            if x < i {
                                assert(before[x].before(before[i as int]));
                            } else {
                                assert(before[i as int].before(before[x]));
                            }
                        }
                        if before.contains(o) && o != addr {
                            let k = choose|k: int| 0 <= k < before.len() && before[k] == o;
                            let x = if k < i { k } else { k - 1 };
                            assert(after[x] == o);
                        }
                    }
                    assert(self@ =~= old(self)@.remove(addr));
                }
                return true;
            }
            i = i + 1;
        }
        assert(self@ =~= old(self)@.remove(addr));
        false
    }

    /// How many addresses there are.
    pub fn len(&self) -> (len: usize)
        requires
            self.wf(),
        ensures
            self@.finite(),
            len == self@.len(),
    {
        proof {
            assert(self.addrs@.no_duplicates()) by {
                assert forall|i: int, j: int|
                    0 <= i < self.addrs@.len() && 0 <= j < self.addrs@.len() && i
                        != j implies self.addrs@[i] != self.addrs@[j] by {
                    lemma_before_irreflexive(self.addrs@[i]);
                    if i < j {
                        assert(self.addrs@[i].before(self.addrs@[j]));
                    } else {
                        assert(self.addrs@[j].before(self.addrs@[i]));
                    }
                }
            }
            self.addrs@.unique_seq_to_set();
        }
        self.addrs.len()
    }

    /// The lowest address.
    pub fn first(&self) -> (addr: Option<SocketAddr>)
        requires
            self.wf(),
        ensures
            addr is None == (self@ == Set::<SocketAddr>::empty()),
            addr matches Some(a) ==> is_lowest(self@, a),
    {
        if self.addrs.len() == 0 {
            assert(self@ =~= Set::<SocketAddr>::empty());
            None
        } else {
            proof {
                let lowest = self.addrs@[0];
                assert(self.addrs@.contains(lowest));
                assert(self@.contains(lowest));
                assert forall|other: SocketAddr| #[trigger] self@.contains(other) implies
                    !other.before(lowest) by {
                    let k = choose|k: int| 0 <= k < self.addrs@.len() && self.addrs@[k] == other;
                    if k > 0 {
                        assert(lowest.before(other));
                        SocketAddr::asymmetric(lowest, other);
                    } else {
                        lemma_before_irreflexive(lowest);
                    }
                }
            }
            Some(self.addrs[0])
        }
    }

    /// The same addresses.
    pub fn copy(&self) -> (set: AddrSet)
        requires
            self.wf(),
        ensures
            set.wf(),
            set@ == self@,
            set.listed() == self.listed(),
    {
        let mut addrs: Vec<SocketAddr> = Vec::new();
        let mut i: usize = 0;
        while i < self.addrs.len()
            invariant
                i <= self.addrs@.len(),
                addrs@ == self.addrs@.take(i as int),
            decreases self.addrs@.len() - i,
        {
            addrs.push(self.addrs[i]);
            i = i + 1;
            assert(addrs@ =~= self.addrs@.take(i as int));
        }
        assert(self.addrs@.take(i as int) =~= self.addrs@);
        AddrSet { addrs }
    }
}

/// A set has one lowest address.
pub proof fn the_lowest_address_is_unique(addrs: Set<SocketAddr>, a: SocketAddr, b: SocketAddr)
    requires
        is_lowest(addrs, a),
        is_lowest(addrs, b),
    ensures
        a == b,
{
    addr_order_is_total(a, b);
}

} // verus!
