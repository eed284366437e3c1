use vstd::prelude::*;

verus! {

/// Membership of bit `i` in the 32-bit word `m`.
pub open spec fn bit32(m: u32, i: u32) -> bool {
    i < 32 && (m >> i) & 1u32 == 1u32
}

/// The word built from a bit range: the conjunction of the two high masks
/// keeps only the bits from `end` upward, so its negation holds every bit
/// below `end` (the `start` bound does not narrow it further).
pub open spec fn mask_bits(start: u8, end: u8) -> u32 {
    !((!0u32 << (start as u32)) & (!0u32 << (end as u32)))
}

/// The word holding every bit below `end`.
pub fn bit_mask(start: u8, end: u8) -> (r: u32)
    requires
        start <= end,
        end <= 31,
    ensures
        r == mask_bits(start, end),
        forall|i: u32| bit32(r, i) <==> i < end,
{
    let from_start: u32 = !0u32 << (start as u32);
    let to_end: u32 = !0u32 << (end as u32);
    let r = !(from_start & to_end);
    proof {
        let s = start as u32;
        let e = end as u32;
        assert forall|i: u32| bit32(r, i) <==> i < e by {
            assert((s <= e && e <= 31 && r == !((!0u32 << s) & (!0u32 << e))) ==> (bit32(r, i)
                <==> (i < e))) by (bit_vector);
        }
    }
    r
}

/// A record packed into one 32-bit word: a kind tag in the low bits, then
/// the kind's fields, each in its own bit range.
#[derive(Debug, Default, Clone, Copy, Eq, PartialEq, Hash, Ord, PartialOrd, Structural)]
pub struct Fact {
    pub bits: u32,
}

/// A pattern over facts: a fact value together with a mask naming the bits
/// that must agree.
#[derive(Clone, Copy, Debug, Eq, PartialEq, Hash, Structural)]
pub struct FactPattern {
    pub fact: Fact,
    pub mask: u32,
}

/// Whether the word `bits` agrees with the pattern on every masked bit.
pub open spec fn spec_matches(bits: u32, p: FactPattern) -> bool {
    bits & p.mask == p.fact.bits
}

impl FactPattern {
    /// The pattern whose mask covers every bit below `end` and whose value
    /// is `bits` shifted up to `start`: reading the range back recovers the
    /// value, while writing the pattern also clears the bits below `start`.
    pub fn from_bit_slice(bits: u32, start: u8, end: u8) -> (r: FactPattern)
        requires
            start <= end,
            end <= 31,
        ensures
            r.mask == mask_bits(start, end),
            r.fact.bits == (bits << (start as u32)) & r.mask,
            forall|i: u32| bit32(r.mask, i) <==> i < end,
    {
        let mask = bit_mask(start, end);
        FactPattern { fact: Fact { bits: (bits << (start as u32)) & mask }, mask }
    }
}

impl Fact {
    /// Whether this fact agrees with the pattern on every masked bit.
    pub fn matches_pattern(self, fact_pattern: FactPattern) -> (r: bool)
        ensures
            r == spec_matches(self.bits, fact_pattern),
    {
        self.bits & fact_pattern.mask == fact_pattern.fact.bits
    }

    /// Overwrites the pattern's masked bits with the pattern's values,
    /// leaving the other bits as they were.
    pub fn write(&mut self, fact_pattern: FactPattern)
        ensures
            final(self).bits == (old(self).bits & !fact_pattern.mask) | fact_pattern.fact.bits,
    {
        self.bits = self.bits & !fact_pattern.mask;
        self.bits = self.bits | fact_pattern.fact.bits;
    }

    /// This fact with the pattern's masked bits overwritten.
    pub fn with(self, fact_pattern: FactPattern) -> (r: Fact)
        ensures
            r.bits == (self.bits & !fact_pattern.mask) | fact_pattern.fact.bits,
    {
        let mut r = self;
        r.write(fact_pattern);
        r
    }

    /// The value held in the bits of `[start, end)`, shifted down to start
    /// at bit zero.
    pub fn read(self, start: u8, end: u8) -> (r: u32)
        requires
            start <= end,
            end <= 31,
        ensures
            r == (self.bits & mask_bits(start, end)) >> (start as u32),
    {
        let m = bit_mask(start, end);
        (self.bits & m) >> (start as u32)
    }

    /// Packs a kind tag and its field values into one word by writing the
    /// tag at bits `[0, 2)` and then each two-bit field at its own offset.
    /// Kind `0` has one field, kind `1` has two. Because each write's mask
    /// reaches down to bit zero, a later write clears everything below its
    /// field, so the packed word ends as the last field written, in place.
    pub fn pack(kind_idx: u8, field_bits: &[u32]) -> (r: Fact)
        requires
            kind_idx < 2,
        ensures
            field_bits@.len() == 0 ==> r.bits == (kind_idx as u32) & 3,
            kind_idx == 0 && field_bits@.len() >= 1 ==> r.bits == ((field_bits@[0] & 3) << 2u32),
            kind_idx == 1 && field_bits@.len() == 1 ==> r.bits == ((field_bits@[0] & 3) << 2u32),
            kind_idx == 1 && field_bits@.len() >= 2 ==> r.bits == ((field_bits@[1] & 3) << 4u32),
    {
        let k = kind_idx as u32;
        let mut fact = Fact { bits: 0 };
        fact.write(FactPattern::from_bit_slice(k, 0, 2));
        proof {
            assert((0u32 & !(!((!0u32 << 0u32) & (!0u32 << 2u32)))) | ((k << 0u32) & (!((!0u32
                << 0u32) & (!0u32 << 2u32)))) == k & 3) by (bit_vector);
            assert(fact.bits == k & 3);
        }
        if field_bits.len() >= 1 {
            let f0 = field_bits[0];
            fact.write(FactPattern::from_bit_slice(f0, 2, 4));
            proof {
                assert(((k & 3) & !(!((!0u32 << 2u32) & (!0u32 << 4u32)))) | ((f0 << 2u32) & (!((
                !0u32 << 2u32) & (!0u32 << 4u32)))) == (f0 & 3) << 2u32) by (bit_vector);
                assert(fact.bits == (f0 & 3) << 2u32);
            }
            if kind_idx == 1 && field_bits.len() >= 2 {
                let f1 = field_bits[1];
                fact.write(FactPattern::from_bit_slice(f1, 4, 6));
                proof {
                    assert((((f0 & 3) << 2u32) & !(!((!0u32 << 4u32) & (!0u32 << 6u32)))) | ((f1
                        << 4u32) & (!((!0u32 << 4u32) & (!0u32 << 6u32)))) == (f1
                        & 3) << 4u32) by (bit_vector);
                    assert(fact.bits == (f1 & 3) << 4u32);
                }
            }
        }
        fact
    }
}

} // verus!
