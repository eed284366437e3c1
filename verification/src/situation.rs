use vstd::prelude::*;
use crate::fact::{spec_matches, Fact, FactPattern};
use crate::pstate::{seq_get, PartialState};

verus! {

/// Something that happens and changes a situation.
#[derive(Debug, Clone, Copy, Eq, PartialEq, Hash, Structural)]
pub enum Event {
    SetOwner { owner: u32 },
    BecomeFriends { a: u32, b: u32 },
}

/// A truth assignment over packed facts: each fact word recorded here is
/// known true or known false; an absent word is unknown. Stored as a partial
/// assignment from fact words to one-or-zero, keys strictly ascending.
#[derive(Debug, Clone, PartialEq, Eq)]
pub struct Situation {
    truth: PartialState,
}

impl Situation {
    /// The recorded words and their truth flags, ascending by word.
    pub closed spec fn truth_pairs(self) -> Seq<(u32, u32)> {
        self.truth.pairs()
    }

    /// Well-formed: the underlying store has strictly ascending keys.
    pub closed spec fn wf(self) -> bool {
        self.truth.wf()
    }

    /// The recorded truth of a fact word, if any.
    pub closed spec fn spec_get(self, bits: u32) -> Option<bool> {
        match self.truth.spec_get(bits) {
            Some(v) => Some(v != 0),
            None => None,
        }
    }

    /// The situation where everything is unknown.
    pub fn new() -> (r: Situation)
        ensures
            r.wf(),
            forall|b: u32| r.spec_get(b) is None,
            r.truth_pairs().len() == 0,
    {
        Situation { truth: PartialState::new() }
    }

    /// Records `fact` as `value`, superseding any earlier record, and
    /// returns what was recorded before, if anything.
    pub fn insert(&mut self, fact: Fact, value: bool) -> (r: Option<bool>)
        requires
            old(self).wf(),
        ensures
            final(self).wf(),
            r == old(self).spec_get(fact.bits),
            final(self).spec_get(fact.bits) == Some(value),
            forall|b: u32| b != fact.bits ==> final(self).spec_get(b) == old(self).spec_get(b),
    {
        let v: u32 = if value {
            1
        } else {
            0
        };
        let prior = self.truth.insert(fact.bits, v);
        match prior {
            Some(w) => Some(w != 0),
            None => None,
        }
    }

    /// Takes over every record of `rhs`: a word recorded by `rhs` gets
    /// `rhs`'s flag, any other word keeps its own record.
    #[verifier::rlimit(60)]
    pub fn update(&mut self, rhs: &Situation)
        requires
            old(self).wf(),
            rhs.wf(),
        ensures
            final(self).wf(),
            forall|b: u32|
                final(self).spec_get(b) == (if rhs.spec_get(b) is Some {
                    rhs.spec_get(b)
                } else {
                    old(self).spec_get(b)
                }),
    {
        let n = rhs.truth.len();
        let mut j: usize = 0;
        proof {
            assert(rhs.truth.pairs().take(0) =~= Seq::<(u32, u32)>::empty());
        }
        while j < n
            invariant
                j <= n,
                n == rhs.truth.pairs().len(),
                self.truth.wf(),
                forall|b: u32|
                    self.truth.spec_get(b) == (if seq_get(
                        rhs.truth.pairs().take(j as int),
                        b,
                    ) is Some {
                        seq_get(rhs.truth.pairs().take(j as int), b)
                    } else {
                        old(self).truth.spec_get(b)
                    }),
            decreases n - j,
        {
            let (b0, v0) = rhs.truth.pair_at(j);
            proof {
                crate::pstate::lemma_sorted_take(rhs.truth.pairs(), j as int);
                crate::pstate::lemma_sorted_prefix_lt(rhs.truth.pairs(), j as int);
                crate::pstate::lemma_seq_get_mem(rhs.truth.pairs().take(j as int), b0);
                assert(rhs.truth.pairs().take(j as int + 1) =~= rhs.truth.pairs().take(
                    j as int,
                ).push(rhs.truth.pairs()[j as int]));
            }
            self.truth.insert(b0, v0);
            proof {
                assert forall|b: u32|
                    self.truth.spec_get(b) == (if seq_get(
                        rhs.truth.pairs().take(j as int + 1),
                        b,
                    ) is Some {
                        seq_get(rhs.truth.pairs().take(j as int + 1), b)
                    } else {
                        old(self).truth.spec_get(b)
                    }) by {
                    crate::pstate::lemma_seq_get_push(
                        rhs.truth.pairs().take(j as int),
                        rhs.truth.pairs()[j as int],
                        b,
                    );
                }
            }
            j = j + 1;
        }
        proof {
            assert(rhs.truth.pairs().take(n as int) =~= rhs.truth.pairs());
            crate::pstate::lemma_seq_get_mem(rhs.truth.pairs(), 0);
        }
    }

    /// The recorded facts that match the pattern, with their flags, in
    /// ascending word order.
    pub fn query(&self, fact_pattern: FactPattern) -> (r: Vec<(Fact, bool)>)
        requires
            self.wf(),
        ensures
            forall|i: int|
                0 <= i < r@.len() ==> spec_matches((#[trigger] r@[i]).0.bits, fact_pattern)
                    && self.spec_get(r@[i].0.bits) == Some(r@[i].1),
            forall|b: u32|
                self.spec_get(b) is Some && spec_matches(b, fact_pattern) ==> exists|i: int|
                    0 <= i < r@.len() && (#[trigger] r@[i]).0.bits == b,
            forall|i: int, j: int| 0 <= i < j < r@.len() ==> r@[i].0.bits < r@[j].0.bits,
    {
        let n = self.truth.len();
        let mut r: Vec<(Fact, bool)> = Vec::new();
        let mut j: usize = 0;
        while j < n
            invariant
                j <= n,
                n == self.truth.pairs().len(),
                forall|i: int|
                    0 <= i < r@.len() ==> spec_matches((#[trigger] r@[i]).0.bits, fact_pattern)
                        && self.spec_get(r@[i].0.bits) == Some(r@[i].1),
                forall|l: int|
                    0 <= l < j && spec_matches((#[trigger] self.truth.pairs()[l]).0, fact_pattern)
                        ==> exists|i: int|
                        0 <= i < r@.len() && (#[trigger] r@[i]).0.bits == self.truth.pairs()[l].0,
                forall|i: int|
                    0 <= i < r@.len() ==> exists|l: int|
                        0 <= l < j && (#[trigger] r@[i]).0.bits == self.truth.pairs()[l].0,
                forall|i1: int, i2: int| 0 <= i1 < i2 < r@.len() ==> r@[i1].0.bits < r@[i2].0.bits,
                forall|i: int, l2: int|
                    0 <= i < r@.len() && j <= l2 < n ==> (#[trigger] r@[i]).0.bits < (
                    #[trigger] self.truth.pairs()[l2]).0,
            decreases n - j,
        {
            let (b0, v0) = self.truth.pair_at(j);
            let f = Fact { bits: b0 };
            proof {
                crate::pstate::lemma_seq_get_mem(self.truth.pairs(), b0);
                crate::pstate::lemma_sorted_prefix_lt(self.truth.pairs(), j as int);
            }
            let ghost r0 = r@;
            if f.matches_pattern(fact_pattern) {
                r.push((f, v0 != 0));
                proof {
                    assert forall|i: int, l2: int|
                        0 <= i < r@.len() && j + 1 <= l2 < n implies (#[trigger] r@[i]).0.bits < (
                    #[trigger] self.truth.pairs()[l2]).0 by {
                        crate::pstate::lemma_sorted_general(self.truth.pairs(), j as int, l2);
                    }
                }
            }
            proof {
                assert forall|l: int|
                    0 <= l < j + 1 && spec_matches(
                        (#[trigger] self.truth.pairs()[l]).0,
                        fact_pattern,
                    ) implies exists|i: int|
                    0 <= i < r@.len() && (#[trigger] r@[i]).0.bits == self.truth.pairs()[l].0 by {
                    if l == j {
                        assert(r@[r@.len() - 1].0.bits == self.truth.pairs()[j as int].0);
                    } else {
                        let i = choose|i: int|
                            0 <= i < r0.len() && (#[trigger] r0[i]).0.bits
                                == self.truth.pairs()[l].0;
                        assert(r@[i].0.bits == self.truth.pairs()[l].0);
                    }
                }
            }
            j = j + 1;
        }
        proof {
            assert forall|b: u32|
                self.spec_get(b) is Some && spec_matches(b, fact_pattern) implies exists|i: int|
                0 <= i < r@.len() && (#[trigger] r@[i]).0.bits == b by {
                crate::pstate::lemma_seq_get_mem(self.truth.pairs(), b);
                let l = choose|l: int|
                    0 <= l < self.truth.pairs().len() && (#[trigger] self.truth.pairs()[l]).0
                        == b;
                assert(spec_matches(self.truth.pairs()[l].0, fact_pattern));
            }
        }
        r
    }

    /// The change that `event` makes, as its own situation: what an owner
    /// change falsifies and what the event itself establishes. Always
    /// produces a delta.
    pub fn try_delta(&self, event: Event) -> (r: Option<Situation>)
        requires
            self.wf(),
        ensures
            r is Some,
            r->Some_0.wf(),
            event matches Event::SetOwner { owner } ==> (forall|b: u32|
                r->Some_0.spec_get(b) == (if b == low_kind_packed(owner) {
                    Some(true)
                } else if self.spec_get(b) is Some && spec_matches(b, kind_bit_pattern()) {
                    Some(false)
                } else {
                    None::<bool>
                })),
            event matches Event::BecomeFriends { a, b } ==> (forall|w: u32|
                r->Some_0.spec_get(w) == (if w == friends_packed(a, b) {
                    Some(true)
                } else {
                    None::<bool>
                })),
    {
        let mut delta = Situation::new();
        match event {
            Event::SetOwner { owner } => {
                let pattern = FactPattern::from_bit_slice(0, 0, 1);
                proof {
                    let m = pattern.mask;
                    assert((0u32 << 0u32) & m == 0u32) by (bit_vector);
                    assert(pattern.fact.bits == kind_bit_pattern().fact.bits);
                    assert(pattern == kind_bit_pattern());
                }
                let found = self.query(pattern);
                let nf = found.len();
                let mut i: usize = 0;
                while i < nf
                    invariant
                        i <= nf,
                        nf == found@.len(),
                        delta.wf(),
                        forall|b: u32|
                            delta.spec_get(b) == (if (exists|l: int|
                                0 <= l < i && (#[trigger] found@[l]).0.bits == b) {
                                Some(false)
                            } else {
                                None::<bool>
                            }),
                    decreases nf - i,
                {
                    let (f, _value) = found[i];
                    delta.insert(f, false);
                    proof {
                        assert forall|b: u32|
                            delta.spec_get(b) == (if (exists|l: int|
                                0 <= l < i + 1 && (#[trigger] found@[l]).0.bits == b) {
                                Some(false)
                            } else {
                                None::<bool>
                            }) by {
                            if b == f.bits {
                                assert(found@[i as int].0.bits == b);
                            }
                        }
                    }
                    i = i + 1;
                }
                let packed = Fact::pack(0, &[owner]);
                delta.insert(packed, true);
                proof {
                    assert forall|b: u32|
                        delta.spec_get(b) == (if b == low_kind_packed(owner) {
                            Some(true)
                        } else if self.spec_get(b) is Some && spec_matches(
                            b,
                            kind_bit_pattern(),
                        ) {
                            Some(false)
                        } else {
                            None::<bool>
                        }) by {
                        if b != packed.bits {
                            if self.spec_get(b) is Some && spec_matches(b, kind_bit_pattern()) {
                                let l = choose|l: int|
                                    0 <= l < found@.len() && (#[trigger] found@[l]).0.bits == b;
                                assert(delta.spec_get(b) == Some(false));
                            } else {
                                if delta.spec_get(b) is Some {
                                    let l = choose|l: int|
                                        0 <= l < found@.len() && (#[trigger] found@[l]).0.bits
                                            == b;
                                    assert(spec_matches(found@[l].0.bits, kind_bit_pattern()));
                                    assert(self.spec_get(b) is Some);
                                }
                            }
                        }
                    }
                }
            },
            Event::BecomeFriends { a, b } => {
                delta.insert(Fact::pack(1, &[a, b]), true);
            },
        }
        Some(delta)
    }
}

/// The pattern that selects every word whose lowest bit is clear: with the
/// two-bit kind tag at the bottom, both defined kinds match it.
pub open spec fn kind_bit_pattern() -> FactPattern {
    FactPattern { fact: Fact { bits: 0u32 }, mask: crate::fact::mask_bits(0, 1) }
}

/// The packed word of the one-field kind holding `owner`.
pub open spec fn low_kind_packed(owner: u32) -> u32 {
    (owner & 3) << 2u32
}

/// The packed word of the two-field kind holding `a` and `b`.
pub open spec fn friends_packed(a: u32, b: u32) -> u32 {
    (b & 3) << 4u32
}

} // verus!
