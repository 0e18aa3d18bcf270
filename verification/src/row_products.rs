//! Products of matrices: the gates of a first factor that is a circuit are
//! row operations on the product, and the product of invertible matrices is
//! invertible.

use vstd::prelude::*;
use crate::column_ops::{
    lemma_all_len, lemma_same_spec_bits, lemma_xor_sum_two, spec_col_cx, spec_col_word, spec_row_all, spec_valid_gates,
};
use crate::cx_circuit::spec_identity;
use crate::invertible::{
    lemma_bit_of_single, lemma_span_of_identity, lemma_span_of_none, spec_independent, spec_span,
};
use crate::rows::{lemma_bit_ops, lemma_row_bit, lemma_xor_sum_ext, spec_add_cx, spec_bit, spec_mult, spec_xor_sum};

verus! {

/// Where `h` is the difference of `f` and `g` at every position, the sum over
/// `h` is the difference of the sums over `f` and over `g`.
pub proof fn lemma_xor_sum_linear(
    f: spec_fn(int) -> bool,
    g: spec_fn(int) -> bool,
    h: spec_fn(int) -> bool,
    n: nat,
)
    requires
        forall|k: int| 0 <= k < n ==> #[trigger] h(k) == (f(k) != g(k)),
    ensures
        spec_xor_sum(h, n) == (spec_xor_sum(f, n) != spec_xor_sum(g, n)),
    decreases n,
{
    if n > 0 {
        lemma_xor_sum_linear(f, g, h, (n - 1) as nat);
        assert(h(n - 1) == (f(n - 1) != g(n - 1)));
    }
}

/// Bit `j` of row `i` of a product.
pub open spec fn spec_product_bit(a: Seq<u16>, m: Seq<u16>, i: int, j: int) -> bool {
    spec_xor_sum(|k: int| spec_bit(a[i], k) && spec_bit(m[k], j), 16)
}

/// The bits of a product are the sums that define it.
pub proof fn lemma_product_bit(a: Seq<u16>, m: Seq<u16>, i: int, j: int)
    requires
        0 <= i < 16,
        0 <= j < 16,
    ensures
        spec_bit(spec_mult(a, m)[i], j) == spec_product_bit(a, m, i, j),
{
    let made = |j: int| spec_xor_sum(|k: int| spec_bit(a[i], k) && spec_bit(m[k], j), 16);
    lemma_row_bit(made, 16, j);
}

/// A gate after the first factor is that gate after the product.
pub proof fn lemma_mult_add_cx(a: Seq<u16>, m: Seq<u16>, ctrl: int, tgt: int)
    requires
        a.len() == 16,
        0 <= ctrl < 16,
        0 <= tgt < 16,
    ensures
        spec_mult(spec_add_cx(a, ctrl, tgt), m) == spec_add_cx(spec_mult(a, m), ctrl, tgt),
{
    let after = spec_add_cx(a, ctrl, tgt);
    let left = spec_mult(after, m);
    let right = spec_add_cx(spec_mult(a, m), ctrl, tgt);
    assert forall|i: int| 0 <= i < 16 implies left[i] == right[i] by {
        assert forall|j: int| 0 <= j < 16 implies spec_bit(left[i], j) == spec_bit(right[i], j) by {
            lemma_product_bit(after, m, i, j);
            lemma_product_bit(a, m, i, j);
            lemma_product_bit(a, m, ctrl, j);
            let h = |k: int| spec_bit(after[i], k) && spec_bit(m[k], j);
            let f = |k: int| spec_bit(a[i], k) && spec_bit(m[k], j);
            let g = |k: int| spec_bit(a[ctrl], k) && spec_bit(m[k], j);
            if i == tgt {
                assert forall|k: int| 0 <= k < 16 implies #[trigger] h(k) == (f(k) != g(k)) by {
                    lemma_bit_ops(a[tgt], a[ctrl], k);
                }
                lemma_xor_sum_linear(f, g, h, 16);
                lemma_bit_ops(spec_mult(a, m)[tgt], spec_mult(a, m)[ctrl], j);
            } else {
                assert forall|k: int| 0 <= k < 16 implies #[trigger] h(k) == f(k) by {}
                lemma_xor_sum_ext(h, f, 16);
            }
        }
        lemma_same_spec_bits(left[i], right[i]);
    }
    assert(left =~= right);
}

/// The product of the identity with a matrix is the matrix.
pub proof fn lemma_mult_identity(m: Seq<u16>)
    requires
        m.len() == 16,
    ensures
        spec_mult(spec_identity(), m) == m,
{
    let left = spec_mult(spec_identity(), m);
    assert forall|i: int| 0 <= i < 16 implies left[i] == m[i] by {
        assert forall|j: int| 0 <= j < 16 implies spec_bit(left[i], j) == spec_bit(m[i], j) by {
            lemma_product_bit(spec_identity(), m, i, j);
            let p = |k: int| spec_bit(spec_identity()[i], k) && spec_bit(m[k], j);
            let other: int = if i == 0 { 1 } else { 0 };
            assert forall|k: int| 0 <= k < 16 implies #[trigger] p(k) == ((k == i && spec_bit(m[i], j)) || (k == other
                && false)) by {
                lemma_bit_of_single(i, k);
            }
            lemma_xor_sum_two(p, 16, i, other, spec_bit(m[i], j), false);
        }
        lemma_same_spec_bits(left[i], m[i]);
    }
    assert(left =~= m);
}

/// Gates after the first factor are those gates after the product.
pub proof fn lemma_mult_row_all(a: Seq<u16>, m: Seq<u16>, gates: Seq<(usize, usize)>)
    requires
        a.len() == 16,
        spec_valid_gates(gates),
    ensures
        spec_mult(spec_row_all(a, gates), m) == spec_row_all(spec_mult(a, m), gates),
    decreases gates.len(),
{
    if gates.len() > 0 {
        let g = gates[0];
        let rest = gates.drop_first();
        assert(crate::synth::spec_valid_pair(g));
        assert forall|k: int| 0 <= k < rest.len() implies crate::synth::spec_valid_pair(#[trigger] rest[k]) by {
            assert(rest[k] == gates[k + 1]);
        }
        lemma_mult_add_cx(a, m, g.0 as int, g.1 as int);
        lemma_mult_row_all(spec_add_cx(a, g.0 as int, g.1 as int), m, rest);
    }
}

/// Gates after gates are the gates of both lists in a row.
pub proof fn lemma_row_all_concat(rows: Seq<u16>, first: Seq<(usize, usize)>, then: Seq<(usize, usize)>)
    ensures
        spec_row_all(spec_row_all(rows, first), then) == spec_row_all(rows, first + then),
    decreases first.len(),
{
    let both = first + then;
    if first.len() == 0 {
        assert(both =~= then);
    } else {
        assert(both[0] == first[0]);
        assert(both.drop_first() =~= first.drop_first() + then);
        lemma_row_all_concat(spec_add_cx(rows, first[0].0 as int, first[0].1 as int), first.drop_first(), then);
    }
}

/// The product of the circuit of `last` with the circuit of `first` is the
/// circuit of `first` followed by `last`.
pub proof fn lemma_product_of_circuits(first: Seq<(usize, usize)>, last: Seq<(usize, usize)>)
    requires
        spec_valid_gates(first),
        spec_valid_gates(last),
    ensures
        spec_mult(spec_row_all(spec_identity(), last), spec_row_all(spec_identity(), first)) == spec_row_all(
            spec_identity(),
            first + last,
        ),
{
    let m = spec_row_all(spec_identity(), first);
    lemma_all_len(spec_identity(), first);
    lemma_mult_row_all(spec_identity(), m, last);
    lemma_mult_identity(m);
    lemma_row_all_concat(spec_identity(), first, last);
}

proof fn lemma_xor_four(a: u16, b: u16, r: u16)
    by (bit_vector)
    ensures
        (a ^ b) ^ 0 == (a ^ 0) ^ (b ^ 0),
        (a ^ b) ^ r == (a ^ r) ^ (b ^ 0),
        (a ^ b) ^ r == (a ^ 0) ^ (b ^ r),
        (a ^ b) ^ 0 == (a ^ r) ^ (b ^ r),
        a ^ 0 == a,
{
}

/// The rows that the sum of two masks picks add up to the sum of what each picks.
pub proof fn lemma_span_linear(rows: Seq<u16>, x: u16, y: u16, n: nat)
    requires
        n <= 16,
    ensures
        spec_span(rows, x ^ y, n) == spec_span(rows, x, n) ^ spec_span(rows, y, n),
    decreases n,
{
    if n == 0 {
        lemma_xor_four(0, 0, 0);
    } else {
        lemma_span_linear(rows, x, y, (n - 1) as nat);
        lemma_bit_ops(x, y, n - 1);
        lemma_xor_four(spec_span(rows, x, (n - 1) as nat), spec_span(rows, y, (n - 1) as nat), rows[n - 1]);
    }
}

/// Bit `j` of a sum of rows is the sum of the bits `j` of these rows.
pub proof fn lemma_span_bit(rows: Seq<u16>, x: u16, n: nat, j: int)
    requires
        n <= 16,
        0 <= j < 16,
    ensures
        spec_bit(spec_span(rows, x, n), j) == spec_xor_sum(|k: int| spec_bit(x, k) && spec_bit(rows[k], j), n),
    decreases n,
{
    if n == 0 {
        lemma_bit_of_single(0, j);
    } else {
        lemma_span_bit(rows, x, (n - 1) as nat, j);
        let front = spec_span(rows, x, (n - 1) as nat);
        let last: u16 = if spec_bit(x, n - 1) { rows[n - 1] } else { 0u16 };
        lemma_bit_ops(front, last, j);
        lemma_bit_of_single(0, j);
    }
}

/// A row of a product is the sum of the rows of the second factor that the row
/// of the first factor picks.
pub proof fn lemma_product_row(a: Seq<u16>, b: Seq<u16>, i: int)
    requires
        0 <= i < 16,
    ensures
        spec_mult(a, b)[i] == spec_span(b, a[i], 16),
{
    let left = spec_mult(a, b)[i];
    let right = spec_span(b, a[i], 16);
    assert forall|j: int| 0 <= j < 16 implies spec_bit(left, j) == spec_bit(right, j) by {
        lemma_product_bit(a, b, i, j);
        lemma_span_bit(b, a[i], 16, j);
    }
    lemma_same_spec_bits(left, right);
}

/// A sum of rows of a product is the sum of the rows of the second factor that
/// the same sum of rows of the first factor picks.
pub proof fn lemma_span_product(a: Seq<u16>, b: Seq<u16>, mask: u16, n: nat)
    requires
        n <= 16,
    ensures
        spec_span(spec_mult(a, b), mask, n) == spec_span(b, spec_span(a, mask, n), 16),
    decreases n,
{
    if n == 0 {
        lemma_span_of_none(b, 16);
    } else {
        lemma_span_product(a, b, mask, (n - 1) as nat);
        let front = spec_span(a, mask, (n - 1) as nat);
        lemma_product_row(a, b, n - 1);
        lemma_span_linear(b, front, a[n - 1], 16);
        lemma_xor_four(front, 0, 0);
        lemma_xor_four(spec_span(b, front, 16), 0, 0);
    }
}

/// The product of two invertible matrices is invertible.
pub proof fn lemma_mult_independent(a: Seq<u16>, b: Seq<u16>)
    requires
        spec_independent(a),
        spec_independent(b),
    ensures
        spec_independent(spec_mult(a, b)),
{
    assert forall|mask: u16| mask != 0 implies #[trigger] spec_span(spec_mult(a, b), mask, 16) != 0 by {
        lemma_span_product(a, b, mask, 16);
        let picked = spec_span(a, mask, 16);
        assert(picked != 0);
        assert(spec_span(b, picked, 16) != 0);
    }
}

proof fn lemma_col_word_sum(x: u16, y: u16, a: u16, b: u16)
    by (bit_vector)
    requires
        a < 16,
        b < 16,
    ensures
        (x ^ y) ^ ((((x ^ y) >> b) & 1u16) << a) == (x ^ (((x >> b) & 1u16) << a)) ^ (y ^ (((y >> b) & 1u16)
            << a)),
        0u16 ^ (((0u16 >> b) & 1u16) << a) == 0u16,
        x ^ 0u16 == x,
{
}

/// A sum of rows after a column was added to another is that sum with the
/// column added.
pub proof fn lemma_span_col_cx(m: Seq<u16>, mask: u16, n: nat, a: int, b: int)
    requires
        m.len() == 16,
        n <= 16,
        0 <= a < 16,
        0 <= b < 16,
    ensures
        spec_span(spec_col_cx(m, a, b), mask, n) == spec_col_word(spec_span(m, mask, n), a, b),
    decreases n,
{
    if n == 0 {
        lemma_col_word_sum(0, 0, a as u16, b as u16);
    } else {
        lemma_span_col_cx(m, mask, (n - 1) as nat, a, b);
        let front = spec_span(m, mask, (n - 1) as nat);
        lemma_col_word_sum(front, m[n - 1], a as u16, b as u16);
        lemma_col_word_sum(front, 0, a as u16, b as u16);
        lemma_col_word_sum(spec_col_word(front, a, b), 0, a as u16, b as u16);
    }
}

/// Adding a column to another in the second factor adds it in the product.
pub proof fn lemma_mult_col_cx(c: Seq<u16>, m: Seq<u16>, a: int, b: int)
    requires
        m.len() == 16,
        0 <= a < 16,
        0 <= b < 16,
    ensures
        spec_mult(c, spec_col_cx(m, a, b)) == spec_col_cx(spec_mult(c, m), a, b),
{
    let left = spec_mult(c, spec_col_cx(m, a, b));
    let right = spec_col_cx(spec_mult(c, m), a, b);
    assert forall|i: int| 0 <= i < 16 implies left[i] == right[i] by {
        lemma_product_row(c, spec_col_cx(m, a, b), i);
        lemma_product_row(c, m, i);
        lemma_span_col_cx(m, c[i], 16, a, b);
    }
    assert(left =~= right);
}

/// The product of a matrix with the identity is the matrix.
pub proof fn lemma_mult_by_identity(c: Seq<u16>)
    requires
        c.len() == 16,
    ensures
        spec_mult(c, spec_identity()) == c,
{
    let left = spec_mult(c, spec_identity());
    assert forall|i: int| 0 <= i < 16 implies left[i] == c[i] by {
        lemma_product_row(c, spec_identity(), i);
        lemma_span_of_identity(c[i]);
    }
    assert(left =~= c);
}

} // verus!
