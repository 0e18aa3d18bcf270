//! Sets of qubit indices below 16, packed into one machine word.

use vstd::prelude::*;

verus! {

/// Whether bit `q` of `x` is set.
pub open spec fn bit_at(x: u16, q: u8) -> bool {
    (x >> (q as u16)) & 1u16 == 1u16
}

proof fn lemma_bit_or(x: u16, y: u16, q: u16)
    by (bit_vector)
    requires
        q < 16,
    ensures
        ((x | y) >> q) & 1u16 == 1u16 <==> ((x >> q) & 1u16 == 1u16 || (y >> q) & 1u16 == 1u16),
        ((x & y) >> q) & 1u16 == 1u16 <==> ((x >> q) & 1u16 == 1u16 && (y >> q) & 1u16 == 1u16),
{
}

proof fn lemma_bit_single(p: u16, q: u16)
    by (bit_vector)
    requires
        p < 16,
        q < 16,
    ensures
        ((1u16 << p) >> q) & 1u16 == 1u16 <==> p == q,
        (0u16 >> q) & 1u16 == 0u16,
{
}

proof fn lemma_bits_determine(x: u16, y: u16)
    by (bit_vector)
    requires
        (x >> 0u16) & 1u16 == (y >> 0u16) & 1u16,
        (x >> 1u16) & 1u16 == (y >> 1u16) & 1u16,
        (x >> 2u16) & 1u16 == (y >> 2u16) & 1u16,
        (x >> 3u16) & 1u16 == (y >> 3u16) & 1u16,
        (x >> 4u16) & 1u16 == (y >> 4u16) & 1u16,
        (x >> 5u16) & 1u16 == (y >> 5u16) & 1u16,
        (x >> 6u16) & 1u16 == (y >> 6u16) & 1u16,
        (x >> 7u16) & 1u16 == (y >> 7u16) & 1u16,
        (x >> 8u16) & 1u16 == (y >> 8u16) & 1u16,
        (x >> 9u16) & 1u16 == (y >> 9u16) & 1u16,
        (x >> 10u16) & 1u16 == (y >> 10u16) & 1u16,
        (x >> 11u16) & 1u16 == (y >> 11u16) & 1u16,
        (x >> 12u16) & 1u16 == (y >> 12u16) & 1u16,
        (x >> 13u16) & 1u16 == (y >> 13u16) & 1u16,
        (x >> 14u16) & 1u16 == (y >> 14u16) & 1u16,
        (x >> 15u16) & 1u16 == (y >> 15u16) & 1u16,
    ensures
        x == y,
{
}

proof fn lemma_bit_is_zero_or_one(x: u16, q: u16)
    by (bit_vector)
    ensures
        (x >> q) & 1u16 == 0u16 || (x >> q) & 1u16 == 1u16,
{
}

/// Two words with the same sixteen bits are the same word.
pub proof fn lemma_same_bits(x: u16, y: u16)
    requires
        forall|q: u8| q < 16 ==> bit_at(x, q) == bit_at(y, q),
    ensures
        x == y,
{
    assert forall|q: u16| q < 16 implies (x >> q) & 1u16 == (y >> q) & 1u16 by {
        let q8 = q as u8;
        assert(bit_at(x, q8) == bit_at(y, q8));
        assert(q8 as u16 == q);
        lemma_bit_is_zero_or_one(x, q);
        lemma_bit_is_zero_or_one(y, q);
    }
    assert((x >> 0u16) & 1u16 == (y >> 0u16) & 1u16);
    assert((x >> 1u16) & 1u16 == (y >> 1u16) & 1u16);
    assert((x >> 2u16) & 1u16 == (y >> 2u16) & 1u16);
    assert((x >> 3u16) & 1u16 == (y >> 3u16) & 1u16);
    assert((x >> 4u16) & 1u16 == (y >> 4u16) & 1u16);
    assert((x >> 5u16) & 1u16 == (y >> 5u16) & 1u16);
    assert((x >> 6u16) & 1u16 == (y >> 6u16) & 1u16);
    assert((x >> 7u16) & 1u16 == (y >> 7u16) & 1u16);
    assert((x >> 8u16) & 1u16 == (y >> 8u16) & 1u16);
    assert((x >> 9u16) & 1u16 == (y >> 9u16) & 1u16);
    assert((x >> 10u16) & 1u16 == (y >> 10u16) & 1u16);
    assert((x >> 11u16) & 1u16 == (y >> 11u16) & 1u16);
    assert((x >> 12u16) & 1u16 == (y >> 12u16) & 1u16);
    assert((x >> 13u16) & 1u16 == (y >> 13u16) & 1u16);
    assert((x >> 14u16) & 1u16 == (y >> 14u16) & 1u16);
    assert((x >> 15u16) & 1u16 == (y >> 15u16) & 1u16);
    lemma_bits_determine(x, y);
}

/// A set of qubits, each below 16.
#[derive(Clone, Copy, PartialEq, Eq, Structural, Hash, Debug)]
pub struct QubitSet {
    bits: u16,
}

impl View for QubitSet {
    type V = Set<u8>;

    closed spec fn view(&self) -> Set<u8> {
        Set::new(|q: u8| q < 16 && bit_at(self.bits, q))
    }
}

impl QubitSet {
    /// Every member is a qubit below 16, and the set is finite.
    pub proof fn lemma_members_small(&self)
        ensures
            forall|q: u8| self@.contains(q) ==> q < 16,
            self@.finite(),
    {
        let below: Set<u8> = set![0u8, 1u8, 2u8, 3u8, 4u8, 5u8, 6u8, 7u8, 8u8, 9u8, 10u8, 11u8, 12u8, 13u8, 14u8, 15u8];
        assert(self@.subset_of(below));
        vstd::set_lib::lemma_len_subset(self@, below);
    }

    /// Sets with the same members are the same set.
    pub proof fn lemma_view_injective(&self, other: &QubitSet)
        requires
            self@ == other@,
        ensures
            *self == *other,
    {
        assert forall|q: u8| q < 16 implies bit_at(self.bits, q) == bit_at(other.bits, q) by {
            assert(self@.contains(q) == bit_at(self.bits, q));
            assert(other@.contains(q) == bit_at(other.bits, q));
        }
        lemma_same_bits(self.bits, other.bits);
    }

    /// The empty set.
    pub fn empty() -> (s: QubitSet)
        ensures
            s@ == Set::<u8>::empty(),
    {
        let s = QubitSet { bits: 0 };
        proof {
            assert forall|q: u8| !s@.contains(q) by {
                if q < 16 {
                    lemma_bit_single(0, q as u16);
                }
            }
            assert(s@ =~= Set::<u8>::empty());
        }
        s
    }

    /// Whether `q` is a member.
    pub fn contains(&self, q: u8) -> (b: bool)
        ensures
            b == self@.contains(q),
    {
        q < 16 && (self.bits >> (q as u16)) & 1u16 == 1u16
    }

    /// Whether the set has no member.
    pub fn is_empty(&self) -> (b: bool)
        ensures
            b == (self@ == Set::<u8>::empty()),
    {
        proof {
            let e = QubitSet { bits: 0 };
            assert forall|q: u8| !e@.contains(q) by {
                if q < 16 {
                    lemma_bit_single(0, q as u16);
                }
            }
            assert(e@ =~= Set::<u8>::empty());
            if self@ == Set::<u8>::empty() {
                self.lemma_view_injective(&e);
            }
        }
        self.bits == 0
    }

    /// Adds the qubit `q`.
    pub fn insert(&mut self, q: u8)
        requires
            q < 16,
        ensures
            final(self)@ == old(self)@.insert(q),
    {
        let mask: u16 = 1u16 << (q as u16);
        self.bits = self.bits | mask;
        proof {
            assert forall|p: u8| self@.contains(p) == old(self)@.insert(q).contains(p) by {
                if p < 16 {
                    lemma_bit_or(old(self).bits, mask, p as u16);
                    lemma_bit_single(q as u16, p as u16);
                }
            }
            assert(self@ =~= old(self)@.insert(q));
        }
    }

    /// The qubits in either set.
    pub fn union(&self, other: &QubitSet) -> (r: QubitSet)
        ensures
            r@ == self@.union(other@),
    {
        let r = QubitSet { bits: self.bits | other.bits };
        proof {
            assert forall|p: u8| r@.contains(p) == self@.union(other@).contains(p) by {
                if p < 16 {
                    lemma_bit_or(self.bits, other.bits, p as u16);
                }
            }
            assert(r@ =~= self@.union(other@));
        }
        r
    }

    /// The qubits in both sets.
    pub fn intersection(&self, other: &QubitSet) -> (r: QubitSet)
        ensures
            r@ == self@.intersect(other@),
    {
        let r = QubitSet { bits: self.bits & other.bits };
        proof {
            assert forall|p: u8| r@.contains(p) == self@.intersect(other@).contains(p) by {
                if p < 16 {
                    lemma_bit_or(self.bits, other.bits, p as u16);
                }
            }
            assert(r@ =~= self@.intersect(other@));
        }
        r
    }

    /// The members in increasing order.
    pub fn to_vec(&self) -> (v: Vec<u8>)
        ensures
            forall|q: u8| self@.contains(q) <==> v@.contains(q),
            forall|i: int, j: int| 0 <= i < j < v@.len() ==> v@[i] < v@[j],
    {
        let mut v: Vec<u8> = Vec::new();
        let mut q: u8 = 0;
        while q < 16
            invariant
                q <= 16,
                forall|p: u8| (p < q && self@.contains(p)) <==> v@.contains(p),
                forall|i: int, j: int| 0 <= i < j < v@.len() ==> v@[i] < v@[j],
                forall|i: int| 0 <= i < v@.len() ==> v@[i] < q,
            decreases 16 - q,
        {
            if self.contains(q) {
                let ghost before = v@;
                v.push(q);
                proof {
                    assert(v@[before.len() as int] == q);
                    assert forall|p: u8| (p < q + 1 && self@.contains(p)) <==> v@.contains(p) by {
                        if v@.contains(p) {
                            let i = choose|i: int| 0 <= i < v@.len() && v@[i] == p;
                            if i < before.len() {
                                assert(before[i] == p);
                                assert(before.contains(p));
                            }
                        }
                        if p < q && self@.contains(p) {
                            assert(before.contains(p));
                            let i = choose|i: int| 0 <= i < before.len() && before[i] == p;
                            assert(v@[i] == p);
                        }
                    }
                }
            }
            q = q + 1;
        }
        proof {
            self.lemma_members_small();
        }
        v
    }
}

} // verus!
