use vstd::prelude::*;

verus! {

/// Membership of bit `i` in the 64-bit mask `m`.
pub open spec fn bit64(m: u64, i: u64) -> bool {
    i < 64 && (m >> i) & 1u64 == 1u64
}

/// A set of small indices (below 64), stored as the bits of one machine
/// word. The word's integer value doubles as the set's position in the
/// powerset descent order that the step enumerator follows: moving to the
/// arithmetically next smaller word visits every subset of a fixed
/// universe exactly once, from the full universe down to the empty set.
#[derive(Debug, Clone, Copy, PartialEq, Eq, Structural)]
pub struct IndexSet {
    pub bits: u64,
}

/// A nonzero word has at least one set bit.
pub proof fn lemma_nonzero_has_bit(m: u64)
    requires
        m != 0,
    ensures
        exists|i: u64| bit64(m, i),
    decreases m,
{
    if m & 1u64 == 1u64 {
        assert(bit64(m, 0)) by (bit_vector)
            requires
                m & 1u64 == 1u64,
        ;
    } else {
        assert(m >> 1u64 != 0 && m >> 1u64 < m) by (bit_vector)
            requires
                m != 0 && m & 1u64 != 1u64,
        ;
        lemma_nonzero_has_bit(m >> 1u64);
        let j = choose|j: u64| bit64(m >> 1u64, j);
        let j1 = (j + 1) as u64;
        assert(bit64(m, j1)) by (bit_vector)
            requires
                bit64(m >> 1u64, j) && j < 64 && j1 == j + 1,
        ;
    }
}

impl IndexSet {
    /// Whether index `i` is a member.
    pub open spec fn has(self, i: u64) -> bool {
        bit64(self.bits, i)
    }

    /// The members, as a mathematical set.
    pub open spec fn to_set(self) -> Set<u64> {
        Set::new(|i: u64| self.has(i))
    }

    pub open spec fn spec_subset_of(self, o: IndexSet) -> bool {
        forall|i: u64| self.has(i) ==> o.has(i)
    }

    pub open spec fn spec_disjoint_with(self, o: IndexSet) -> bool {
        forall|i: u64| !(self.has(i) && o.has(i))
    }

    /// The set with no members.
    pub fn empty() -> (r: IndexSet)
        ensures
            r.bits == 0,
            forall|i: u64| !r.has(i),
    {
        let r = IndexSet { bits: 0 };
        proof {
            assert forall|i: u64| !r.has(i) by {
                assert(!bit64(0u64, i)) by (bit_vector);
            }
        }
        r
    }

    /// The full universe of the first `n` indices.
    pub fn full(n: usize) -> (r: IndexSet)
        requires
            n <= 64,
        ensures
            forall|i: u64| r.has(i) <==> i < n,
            n < 64 ==> r.bits == (1u64 << (n as u64)) - 1,
            n == 64 ==> r.bits == u64::MAX,
            n > 0 ==> r.bits >= 1,
    {
        let bits: u64 = if n >= 64 {
            u64::MAX
        } else {
            let p: u64 = 1u64 << (n as u64);
            proof {
                let nn = n as u64;
                assert(nn < 64 ==> 1u64 << nn >= 1) by (bit_vector);
            }
            p - 1
        };
        let r = IndexSet { bits };
        proof {
            let nn = n as u64;
            if n >= 64 {
                assert forall|i: u64| r.has(i) <==> i < nn by {
                    assert(bit64(u64::MAX, i) <==> i < 64) by (bit_vector);
                }
            } else {
                let m = r.bits;
                assert forall|i: u64| r.has(i) <==> i < nn by {
                    assert(nn < 64 && m == (1u64 << nn) - 1 ==> (bit64(m, i) <==> i
                        < nn)) by (bit_vector);
                }
                assert(nn < 64 ==> (1u64 << nn) - 1 >= 1 || nn == 0) by (bit_vector);
            }
        }
        r
    }

    /// Whether index `i` is a member; indices outside the universe are not.
    pub fn contains(&self, i: usize) -> (r: bool)
        ensures
            r == self.has(i as u64),
    {
        if i >= 64 {
            false
        } else {
            let r = (self.bits >> (i as u64)) & 1 == 1;
            r
        }
    }

    /// Adds index `i` to the set.
    pub fn insert(&mut self, i: usize)
        requires
            i < 64,
        ensures
            forall|j: u64| final(self).has(j) <==> old(self).has(j) || j == i,
    {
        let ii = i as u64;
        let ghost obits = self.bits;
        self.bits = self.bits | (1u64 << ii);
        proof {
            assert forall|j: u64| bit64(obits | (1u64 << ii), j) <==> bit64(obits, j) || j
                == ii by {
                assert(ii < 64 ==> (bit64(obits | (1u64 << ii), j) <==> bit64(obits, j) || j
                    == ii)) by (bit_vector);
            }
        }
    }

    /// Whether every member of `self` is a member of `o`.
    pub fn is_subset_of(&self, o: &IndexSet) -> (r: bool)
        ensures
            r == self.spec_subset_of(*o),
            r == self.to_set().subset_of(o.to_set()),
    {
        let r = self.bits & !o.bits == 0;
        proof {
            let a = self.bits;
            let b = o.bits;
            if r {
                assert forall|i: u64| bit64(a, i) implies bit64(b, i) by {
                    assert(a & !b == 0 && bit64(a, i) ==> bit64(b, i)) by (bit_vector);
                }
            } else {
                assert(a & !b != 0);
                lemma_nonzero_has_bit(a & !b);
                let i = choose|i: u64| bit64(a & !b, i);
                assert(bit64(a & !b, i) ==> bit64(a, i) && !bit64(b, i)) by (bit_vector);
                assert(self.has(i) && !o.has(i));
                assert(self.to_set().contains(i) && !o.to_set().contains(i));
                assert(!self.spec_subset_of(*o));
                assert(!self.to_set().subset_of(o.to_set()));
            }
        }
        r
    }

    /// Whether `self` and `o` have no member in common.
    pub fn is_disjoint_with(&self, o: &IndexSet) -> (r: bool)
        ensures
            r == self.spec_disjoint_with(*o),
            r == self.to_set().disjoint(o.to_set()),
    {
        let r = self.bits & o.bits == 0;
        proof {
            let a = self.bits;
            let b = o.bits;
            if r {
                assert forall|i: u64| !(bit64(a, i) && bit64(b, i)) by {
                    assert(a & b == 0 ==> !(bit64(a, i) && bit64(b, i))) by (bit_vector);
                }
            } else {
                lemma_nonzero_has_bit(a & b);
                let i = choose|i: u64| bit64(a & b, i);
                assert(bit64(a & b, i) ==> bit64(a, i) && bit64(b, i)) by (bit_vector);
                assert(self.has(i) && o.has(i));
                assert(self.to_set().contains(i) && o.to_set().contains(i));
                assert(!self.spec_disjoint_with(*o));
                assert(!self.to_set().disjoint(o.to_set()));
            }
        }
        r
    }

    /// Whether the set has no member.
    pub fn is_empty(&self) -> (r: bool)
        ensures
            r == (self.bits == 0),
            r == (forall|i: u64| !self.has(i)),
    {
        let r = self.bits == 0;
        proof {
            if r {
                assert forall|i: u64| !bit64(0u64, i) by {
                    assert(!bit64(0u64, i)) by (bit_vector);
                }
            } else {
                lemma_nonzero_has_bit(self.bits);
                let i = choose|i: u64| bit64(self.bits, i);
                assert(self.has(i));
            }
        }
        r
    }

    /// Moves this set to its successor in powerset descent order: the set
    /// whose word value is one less. Returns false, and leaves the empty
    /// set unchanged, once the order is exhausted.
    pub fn try_decrease_in_powerset_order(&mut self) -> (r: bool)
        ensures
            old(self).bits > 0 ==> r && final(self).bits == old(self).bits - 1,
            old(self).bits == 0 ==> !r && final(self).bits == 0,
    {
        if self.bits == 0 {
            false
        } else {
            self.bits = self.bits - 1;
            true
        }
    }

    /// The members in ascending order.
    pub fn elems(&self) -> (r: Vec<usize>)
        ensures
            forall|k: int| 0 <= k < r@.len() ==> r@[k] < 64 && self.has(r@[k] as u64),
            forall|i: u64| self.has(i) ==> r@.contains(i as usize),
            forall|k1: int, k2: int| 0 <= k1 < k2 < r@.len() ==> r@[k1] < r@[k2],
    {
        let mut r: Vec<usize> = Vec::new();
        let mut i: usize = 0;
        while i < 64
            invariant
                i <= 64,
                forall|k: int| 0 <= k < r@.len() ==> r@[k] < i && self.has(r@[k] as u64),
                forall|j: u64| j < i && self.has(j) ==> r@.contains(j as usize),
                forall|k1: int, k2: int| 0 <= k1 < k2 < r@.len() ==> r@[k1] < r@[k2],
            decreases 64 - i,
        {
            if self.contains(i) {
                let ghost prev = r@;
                r.push(i);
                proof {
                    assert forall|j: u64| j < i + 1 && self.has(j) implies r@.contains(
                        j as usize,
                    ) by {
                        if j < i {
                            let k = choose|k: int|
                                0 <= k < prev.len() && prev[k] == j as usize;
                            assert(r@[k] == j as usize);
                        } else {
                            assert(r@[r@.len() - 1] == i);
                        }
                    }
                }
            }
            i = i + 1;
        }
        proof {
            assert forall|j: u64| self.has(j) implies r@.contains(j as usize) by {
                assert(j < 64);
            }
        }
        r
    }
}

} // verus!
