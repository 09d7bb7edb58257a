//! Sets of addresses, kept in ascending order.

use crate::types::{addresses_ascend, addresses_ascending, lemma_insert_keeps_ascending, Address};
use vstd::prelude::*;

verus! {

/// A set of addresses. The addresses are kept by ascending order, each
/// once.
#[derive(Clone, Debug, PartialEq, Eq)]
pub struct AddressSet {
    pub items: Vec<Address>,
}

impl View for AddressSet {
    type V = Set<Address>;

    open spec fn view(&self) -> Set<Address> {
        self.items@.to_set()
    }
}

/// `out` lists exactly the addresses of `set`, in ascending order.
pub open spec fn lists_addresses(set: Set<Address>, out: Seq<Address>) -> bool {
    addresses_ascending(out) && out.to_set() == set
}

impl AddressSet {
    /// The addresses ascend.
    pub open spec fn wf(self) -> bool {
        addresses_ascending(self.items@)
    }

    /// The empty set.
    pub fn new() -> (r: AddressSet)
        ensures
            r.wf(),
            r@ == Set::<Address>::empty(),
    {
        let r = AddressSet { items: Vec::new() };
        proof {
            assert(r@ =~= Set::<Address>::empty());
        }
        r
    }

    /// Decides whether the set is well-formed.
    pub fn is_wf(&self) -> (r: bool)
        ensures
            r == self.wf(),
    {
        addresses_ascend(&self.items)
    }

    /// How many addresses the set holds.
    pub fn len(&self) -> (r: usize)
        ensures
            r == self.items.len(),
    {
        self.items.len()
    }

    /// Whether the set holds no address.
    pub fn is_empty(&self) -> (r: bool)
        ensures
            r == (self@ == Set::<Address>::empty()),
    {
        proof {
            if self.items.len() == 0 {
                assert(self@ =~= Set::<Address>::empty());
            } else {
                assert(self.items@.contains(self.items@[0]));
                assert(self@.contains(self.items@[0]));
            }
        }
        self.items.len() == 0
    }

    /// The index of `a`, if the set holds it.
    pub fn find(&self, a: &Address) -> (r: Option<usize>)
        ensures
            match r {
                Some(i) => i < self.items.len() && self.items@[i as int] == *a && self@.contains(*a),
                None => !self@.contains(*a),
            },
    {
        let mut i: usize = 0;
        while i < self.items.len()
            invariant
                i <= self.items.len(),
                forall|j: int| 0 <= j < i ==> self.items@[j] != *a,
            decreases self.items.len() - i,
        {
            if self.items[i] == *a {
                proof {
                    assert(self.items@.contains(*a));
                }
                return Some(i);
            }
            i += 1;
        }
        proof {
            if self.items@.contains(*a) {
                let k = choose|k: int| 0 <= k < self.items@.len() && self.items@[k] == *a;
                assert(self.items@[k] != *a);
            }
        }
        None
    }

    /// Whether the set holds `a`.
    pub fn contains(&self, a: &Address) -> (r: bool)
        ensures
            r == self@.contains(*a),
    {
        self.find(a).is_some()
    }

    /// Adds `a`. Returns whether `a` was new to the set.
    pub fn insert(&mut self, a: Address) -> (r: bool)
        requires
            old(self).wf(),
        ensures
            final(self).wf(),
            final(self)@ == old(self)@.insert(a),
            r == !old(self)@.contains(a),
            !r ==> *final(self) == *old(self),
    {
        if self.contains(&a) {
            proof {
                assert(self@.insert(a) =~= self@);
            }
            return false;
        }
        let mut p: usize = 0;
        while p < self.items.len() && self.items[p].is_before(&a)
            invariant
                p <= self.items.len(),
                *self == *old(self),
                forall|k: int| 0 <= k < p ==> (#[trigger] self.items@[k]).precedes(a),
            decreases self.items.len() - p,
        {
            p += 1;
        }
        self.items.insert(p, a);
        proof {
            let before = old(self).items@;
            let after = self.items@;
            if p < before.len() {
                assert(before.contains(before[p as int]));
                Address::lemma_total_order(a, before[p as int]);
            }
            lemma_insert_keeps_ascending(before, p as int, a);
            assert forall|x: Address| after.to_set().contains(x) <==> before.to_set().insert(
                a,
            ).contains(x) by {
                if after.contains(x) {
                    let k = choose|k: int| 0 <= k < after.len() && after[k] == x;
                    if k < p {
                        assert(before[k] == x);
                    } else if k > p {
                        assert(before[k - 1] == x);
                    }
                }
                if before.contains(x) {
                    let k = choose|k: int| 0 <= k < before.len() && before[k] == x;
                    if k < p {
                        assert(after[k] == x);
                    } else {
                        assert(after[k + 1] == x);
                    }
                }
                if x == a {
                    assert(after[p as int] == x);
                }
            }
            assert(after.to_set() =~= before.to_set().insert(a));
        }
        true
    }

    /// Takes `a` out. Returns whether `a` was in the set.
    pub fn remove(&mut self, a: &Address) -> (r: bool)
        requires
            old(self).wf(),
        ensures
            final(self).wf(),
            final(self)@ == old(self)@.remove(*a),
            r == old(self)@.contains(*a),
            !r ==> *final(self) == *old(self),
    {
        match self.find(a) {
            None => {
                proof {
                    assert(self@.remove(*a) =~= self@);
                }
                false
            },
            Some(i) => {
                self.items.remove(i);
                proof {
                    let before = old(self).items@;
                    let after = self.items@;
                    assert forall|x: int, y: int| 0 <= x < y < after.len() implies (
                    #[trigger] after[x]).precedes(#[trigger] after[y]) by {
                        let x2 = if x < i {
                            x
                        } else {
                            x + 1
                        };
                        let y2 = if y < i {
                            y
                        } else {
                            y + 1
                        };
                        assert(before[x2].precedes(before[y2]));
                    }
                    assert forall|x: Address| after.to_set().contains(x) <==> before.to_set().remove(
                        *a,
                    ).contains(x) by {
                        if after.contains(x) {
                            let k = choose|k: int| 0 <= k < after.len() && after[k] == x;
                            let k2 = if k < i {
                                k
                            } else {
                                k + 1
                            };
                            assert(before[k2] == x);
                            if k2 < i {
                                assert(before[k2].precedes(before[i as int]));
                                Address::lemma_total_order(before[k2], before[i as int]);
                            } else {
                                assert(before[i as int].precedes(before[k2]));
                                Address::lemma_total_order(before[i as int], before[k2]);
                            }
                        }
                        if before.contains(x) && x != *a {
                            let k = choose|k: int| 0 <= k < before.len() && before[k] == x;
                            let k2 = if k < i {
                                k
                            } else {
                                k - 1
                            };
                            assert(after[k2] == x);
                        }
                    }
                    assert(after.to_set() =~= before.to_set().remove(*a));
                }
                true
            },
        }
    }

    /// The addresses of the set, in ascending order.
    pub fn to_vec(&self) -> (r: Vec<Address>)
        requires
            self.wf(),
        ensures
            lists_addresses(self@, r@),
    {
        let mut out: Vec<Address> = Vec::new();
        let mut i: usize = 0;
        while i < self.items.len()
            invariant
                i <= self.items.len(),
                out@ == self.items@.subrange(0, i as int),
            decreases self.items.len() - i,
        {
            out.push(self.items[i]);
            proof {
                assert(out@ =~= self.items@.subrange(0, i + 1));
            }
            i += 1;
        }
        proof {
            assert(out@ =~= self.items@);
        }
        out
    }
}

} // verus!
