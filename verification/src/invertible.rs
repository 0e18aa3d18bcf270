//! Invertible matrices over GF(2): sixteen rows of which no sum is zero. A CX
//! gate on two different qubits keeps a matrix invertible, and in an
//! invertible matrix no row is zero and no two rows are the same.

use vstd::prelude::*;
use crate::column_ops::lemma_same_spec_bits;
use crate::cx_circuit::spec_identity;
use crate::rows::{lemma_bit_ops, spec_add_cx, spec_bit};

verus! {

/// The sum of those rows below `n` whose bit in `mask` is set.
pub open spec fn spec_span(rows: Seq<u16>, mask: u16, n: nat) -> u16
    decreases n,
{
    if n == 0 {
        0
    } else {
        spec_span(rows, mask, (n - 1) as nat) ^ if spec_bit(mask, n - 1) {
            rows[n - 1]
        } else {
            0u16
        }
    }
}

/// Sixteen rows of which no sum, but the sum of none, is zero.
pub open spec fn spec_independent(rows: Seq<u16>) -> bool {
    &&& rows.len() == 16
    &&& forall|mask: u16| mask != 0 ==> #[trigger] spec_span(rows, mask, 16) != 0
}

proof fn lemma_xor_facts(a: u16, b: u16, c: u16)
    by (bit_vector)
    ensures
        (a ^ b) ^ c == (a ^ c) ^ b,
        a ^ (b ^ c) == (a ^ b) ^ c,
        (a ^ b) ^ b == a,
        a ^ 0 == a,
        0 ^ a == a,
        a ^ a == 0,
{
}

proof fn lemma_one_bit(p: u16, q: u16)
    by (bit_vector)
    requires
        p < 16,
        q < 16,
    ensures
        ((1u16 << p) >> q) & 1u16 == 1u16 <==> p == q,
        (0u16 >> q) & 1u16 == 0u16,
{
}

/// The bits of a word with one bit, and of zero.
pub proof fn lemma_bit_of_single(p: int, q: int)
    requires
        0 <= p < 16,
        0 <= q < 16,
    ensures
        spec_bit(1u16 << (p as u16), q) == (p == q),
        !spec_bit(0u16, q),
{
    lemma_one_bit(p as u16, q as u16);
}

/// Changing bit `c` of the mask adds row `c` to the sum, where it is among
/// the rows summed.
pub proof fn lemma_span_flip(rows: Seq<u16>, mask: u16, c: int, n: nat)
    requires
        0 <= c < 16,
        n <= 16,
    ensures
        spec_span(rows, mask ^ (1u16 << (c as u16)), n) == spec_span(rows, mask, n) ^ if c < n {
            rows[c]
        } else {
            0u16
        },
    decreases n,
{
    let flipped = mask ^ (1u16 << (c as u16));
    if n == 0 {
        lemma_xor_facts(0, 0, 0);
    } else {
        let j = n - 1;
        lemma_span_flip(rows, mask, c, j as nat);
        lemma_bit_ops(mask, 1u16 << (c as u16), j);
        lemma_bit_of_single(c, j);
        let front = spec_span(rows, mask, j as nat);
        lemma_xor_facts(front, rows[c], rows[j]);
        lemma_xor_facts(front, rows[c], 0);
        lemma_xor_facts(front, 0, rows[j]);
        lemma_xor_facts(front, 0, 0);
    }
}

/// After `CX(ctrl, tgt)` a sum that holds row `tgt` has row `ctrl` added.
pub proof fn lemma_span_add_cx(rows: Seq<u16>, mask: u16, ctrl: int, tgt: int, n: nat)
    requires
        rows.len() == 16,
        0 <= ctrl < 16,
        0 <= tgt < 16,
        ctrl != tgt,
        n <= 16,
    ensures
        spec_span(spec_add_cx(rows, ctrl, tgt), mask, n) == spec_span(rows, mask, n) ^ if tgt < n && spec_bit(
            mask,
            tgt,
        ) {
            rows[ctrl]
        } else {
            0u16
        },
    decreases n,
{
    if n == 0 {
        lemma_xor_facts(0, 0, 0);
    } else {
        let j = n - 1;
        lemma_span_add_cx(rows, mask, ctrl, tgt, j as nat);
        let front = spec_span(rows, mask, j as nat);
        lemma_xor_facts(front, rows[ctrl], rows[j]);
        lemma_xor_facts(front, rows[j], rows[ctrl]);
        lemma_xor_facts(front, rows[ctrl], 0);
        lemma_xor_facts(front, 0, rows[j]);
        lemma_xor_facts(front, 0, 0);
    }
}

/// A CX gate on two different qubits keeps the rows independent.
pub proof fn lemma_add_cx_independent(rows: Seq<u16>, ctrl: int, tgt: int)
    requires
        spec_independent(rows),
        0 <= ctrl < 16,
        0 <= tgt < 16,
        ctrl != tgt,
    ensures
        spec_independent(spec_add_cx(rows, ctrl, tgt)),
{
    let after = spec_add_cx(rows, ctrl, tgt);
    assert forall|mask: u16| mask != 0 implies #[trigger] spec_span(after, mask, 16) != 0 by {
        lemma_span_add_cx(rows, mask, ctrl, tgt, 16);
        let sum = spec_span(rows, mask, 16);
        if spec_bit(mask, tgt) {
            let flipped = mask ^ (1u16 << (ctrl as u16));
            lemma_span_flip(rows, mask, ctrl, 16);
            lemma_bit_ops(mask, 1u16 << (ctrl as u16), tgt);
            lemma_bit_of_single(ctrl, tgt);
            assert(spec_bit(flipped, tgt));
            assert(flipped != 0);
            assert(spec_span(rows, flipped, 16) != 0);
        } else {
            lemma_xor_facts(sum, 0, 0);
        }
    }
}

/// The sum of no row is zero.
pub proof fn lemma_span_of_none(rows: Seq<u16>, n: nat)
    requires
        n <= 16,
    ensures
        spec_span(rows, 0, n) == 0,
    decreases n,
{
    if n > 0 {
        lemma_span_of_none(rows, (n - 1) as nat);
        lemma_bit_of_single(0, n - 1);
        lemma_xor_facts(0, 0, 0);
    }
}

/// Of independent rows none is zero, and no two are the same.
pub proof fn lemma_independent_rows_differ(rows: Seq<u16>, a: int, b: int)
    requires
        spec_independent(rows),
        0 <= a < 16,
        0 <= b < 16,
        a != b,
    ensures
        rows[a] != 0,
        rows[a] != rows[b],
{
    let one = 1u16 << (a as u16);
    let other = 1u16 << (b as u16);
    lemma_span_of_none(rows, 16);
    lemma_span_flip(rows, 0, a, 16);
    lemma_xor_facts(one, rows[a], rows[b]);
    lemma_xor_facts(rows[a], rows[b], 0);
    lemma_bit_of_single(a, a);
    assert(0u16 ^ one == one);
    assert(spec_bit(one, a));
    assert(one != 0);
    assert(spec_span(rows, one, 16) == rows[a]);
    let both = one ^ other;
    lemma_span_flip(rows, one, b, 16);
    lemma_bit_ops(one, other, a);
    lemma_bit_of_single(b, a);
    assert(spec_bit(both, a));
    assert(both != 0);
    assert(spec_span(rows, both, 16) == rows[a] ^ rows[b]);
}

/// A sum of rows of the identity has the bits of its mask.
proof fn lemma_span_identity(mask: u16, n: nat, j: int)
    requires
        n <= 16,
        0 <= j < 16,
    ensures
        spec_bit(spec_span(spec_identity(), mask, n), j) == (j < n && spec_bit(mask, j)),
    decreases n,
{
    if n == 0 {
        lemma_bit_of_single(0, j);
    } else {
        lemma_span_identity(mask, (n - 1) as nat, j);
        let front = spec_span(spec_identity(), mask, (n - 1) as nat);
        let last: u16 = if spec_bit(mask, n - 1) { 1u16 << ((n - 1) as u16) } else { 0u16 };
        assert(spec_identity()[n - 1] == 1u16 << ((n - 1) as u16));
        lemma_bit_ops(front, last, j);
        lemma_bit_of_single(n - 1, j);
    }
}

/// The rows of the identity that a mask picks add up to the mask.
pub proof fn lemma_span_of_identity(mask: u16)
    ensures
        spec_span(spec_identity(), mask, 16) == mask,
{
    let sum = spec_span(spec_identity(), mask, 16);
    assert forall|j: int| 0 <= j < 16 implies spec_bit(sum, j) == spec_bit(mask, j) by {
        lemma_span_identity(mask, 16, j);
    }
    lemma_same_spec_bits(sum, mask);
}

/// The rows of the identity are independent.
pub proof fn lemma_identity_independent()
    ensures
        spec_independent(spec_identity()),
{
    assert forall|mask: u16| mask != 0 implies #[trigger] spec_span(spec_identity(), mask, 16) != 0 by {
        lemma_span_of_identity(mask);
    }
}

} // verus!
