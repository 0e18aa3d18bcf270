//! What a move of the breadth-first searches does to a matrix: it adds one
//! column to another. Column operations and gates, which are row operations,
//! can change places.

use vstd::prelude::*;
use crate::cx_circuit::spec_identity;
use crate::qubit_set::{bit_at, lemma_same_bits};
use crate::rows::{
    lemma_bit_ops, lemma_row_bit, lemma_xor_sum_ext, spec_add_cx, spec_bit, spec_mult_transpose, spec_parity,
    spec_transpose, spec_xor_sum,
};

verus! {

/// The word `x` with its bit `b` added to its bit `a`.
pub open spec fn spec_col_word(x: u16, a: int, b: int) -> u16 {
    x ^ (((x >> (b as u16)) & 1u16) << (a as u16))
}

/// The rows with column `b` added to column `a`.
pub open spec fn spec_col_cx(rows: Seq<u16>, a: int, b: int) -> Seq<u16> {
    Seq::new(rows.len(), |i: int| spec_col_word(rows[i], a, b))
}

/// The rows after the column operations of `gates`, the first gate first.
pub open spec fn spec_col_all(rows: Seq<u16>, gates: Seq<(usize, usize)>) -> Seq<u16>
    decreases gates.len(),
{
    if gates.len() == 0 {
        rows
    } else {
        spec_col_all(spec_col_cx(rows, gates[0].0 as int, gates[0].1 as int), gates.drop_first())
    }
}

/// The rows after the gates of `gates`, the first gate first.
pub open spec fn spec_row_all(rows: Seq<u16>, gates: Seq<(usize, usize)>) -> Seq<u16>
    decreases gates.len(),
{
    if gates.len() == 0 {
        rows
    } else {
        spec_row_all(spec_add_cx(rows, gates[0].0 as int, gates[0].1 as int), gates.drop_first())
    }
}

/// Whether every pair of `gates` names two different qubits below 16.
pub open spec fn spec_valid_gates(gates: Seq<(usize, usize)>) -> bool {
    forall|k: int| 0 <= k < gates.len() ==> crate::synth::spec_valid_pair(#[trigger] gates[k])
}

proof fn lemma_col_word_bit(x: u16, a: u16, b: u16, j: u16)
    by (bit_vector)
    requires
        a < 16,
        b < 16,
        a != b,
        j < 16,
    ensures
        ((x ^ (((x >> b) & 1u16) << a)) >> j) & 1u16 == 1u16 <==> (if j == a {
            ((x >> a) & 1u16 == 1u16) != ((x >> b) & 1u16 == 1u16)
        } else {
            (x >> j) & 1u16 == 1u16
        }),
{
}

proof fn lemma_col_word_twice(x: u16, a: u16, b: u16)
    by (bit_vector)
    requires
        a < 16,
        b < 16,
        a != b,
    ensures
        (x ^ (((x >> b) & 1u16) << a)) ^ ((((x ^ (((x >> b) & 1u16) << a)) >> b) & 1u16) << a) == x,
{
}

proof fn lemma_col_word_linear(x: u16, y: u16, a: u16, b: u16)
    by (bit_vector)
    requires
        a < 16,
        b < 16,
    ensures
        (x ^ y) ^ ((((x ^ y) >> b) & 1u16) << a) == (x ^ (((x >> b) & 1u16) << a)) ^ (y ^ (((y >> b) & 1u16)
            << a)),
{
}

proof fn lemma_col_word_one(i: u16, a: u16, b: u16)
    by (bit_vector)
    requires
        i < 16,
        a < 16,
        b < 16,
    ensures
        (1u16 << i) ^ ((((1u16 << i) >> b) & 1u16) << a) == if i == b {
            (1u16 << b) ^ (1u16 << a)
        } else {
            1u16 << i
        },
{
}

proof fn lemma_one_bits(k: u16, j: u16)
    by (bit_vector)
    requires
        k < 16,
        j < 16,
    ensures
        ((1u16 << k) >> j) & 1u16 == 1u16 <==> j == k,
{
}

/// Words with the same sixteen bits are the same word.
pub proof fn lemma_same_spec_bits(x: u16, y: u16)
    requires
        forall|j: int| 0 <= j < 16 ==> spec_bit(x, j) == spec_bit(y, j),
    ensures
        x == y,
{
    assert forall|q: u8| q < 16 implies bit_at(x, q) == bit_at(y, q) by {
        assert(spec_bit(x, q as int) == spec_bit(y, q as int));
    }
    lemma_same_bits(x, y);
}

/// A sum over a function that holds at two positions at most.
pub proof fn lemma_xor_sum_two(f: spec_fn(int) -> bool, n: nat, p: int, q: int, vp: bool, vq: bool)
    requires
        p != q,
        0 <= p,
        0 <= q,
        forall|k: int| 0 <= k < n ==> #[trigger] f(k) == ((k == p && vp) || (k == q && vq)),
    ensures
        spec_xor_sum(f, n) == ((p < n && vp) != (q < n && vq)),
    decreases n,
{
    if n > 0 {
        lemma_xor_sum_two(f, (n - 1) as nat, p, q, vp, vq);
        assert(f(n - 1) == ((n - 1 == p && vp) || (n - 1 == q && vq)));
    }
}

/// Adding a column twice changes nothing.
pub proof fn lemma_col_cx_twice(rows: Seq<u16>, a: int, b: int)
    requires
        0 <= a < 16,
        0 <= b < 16,
        a != b,
    ensures
        spec_col_cx(spec_col_cx(rows, a, b), a, b) == rows,
{
    assert forall|i: int| 0 <= i < rows.len() implies spec_col_cx(spec_col_cx(rows, a, b), a, b)[i] == rows[i] by {
        lemma_col_word_twice(rows[i], a as u16, b as u16);
    }
    assert(spec_col_cx(spec_col_cx(rows, a, b), a, b) =~= rows);
}

/// Adding a column and adding a row can change places.
pub proof fn lemma_col_cx_add_cx(rows: Seq<u16>, a: int, b: int, ctrl: int, tgt: int)
    requires
        0 <= a < 16,
        0 <= b < 16,
        0 <= ctrl < rows.len(),
        0 <= tgt < rows.len(),
    ensures
        spec_col_cx(spec_add_cx(rows, ctrl, tgt), a, b) == spec_add_cx(spec_col_cx(rows, a, b), ctrl, tgt),
{
    let left = spec_col_cx(spec_add_cx(rows, ctrl, tgt), a, b);
    let right = spec_add_cx(spec_col_cx(rows, a, b), ctrl, tgt);
    assert forall|i: int| 0 <= i < rows.len() implies left[i] == right[i] by {
        if i == tgt {
            lemma_col_word_linear(rows[tgt], rows[ctrl], a as u16, b as u16);
        }
    }
    assert(left =~= right);
}

/// On the identity, adding column `b` to column `a` is `CX(a, b)`.
pub proof fn lemma_col_cx_identity(a: int, b: int)
    requires
        0 <= a < 16,
        0 <= b < 16,
        a != b,
    ensures
        spec_col_cx(spec_identity(), a, b) == spec_add_cx(spec_identity(), a, b),
{
    let left = spec_col_cx(spec_identity(), a, b);
    let right = spec_add_cx(spec_identity(), a, b);
    assert forall|i: int| 0 <= i < 16 implies left[i] == right[i] by {
        lemma_col_word_one(i as u16, a as u16, b as u16);
    }
    assert(left =~= right);
}

/// A move of the searches, the transposed matrix of `CX(a, b)`,
/// composed with a matrix adds column `b` of the matrix to its column `a`.
pub proof fn lemma_move_is_col_cx(rows: Seq<u16>, a: int, b: int)
    requires
        rows.len() == 16,
        0 <= a < 16,
        0 <= b < 16,
        a != b,
    ensures
        spec_mult_transpose(rows, spec_transpose(spec_add_cx(spec_identity(), a, b))) == spec_col_cx(rows, a, b),
{
    let gate = spec_add_cx(spec_identity(), a, b);
    let mv = spec_transpose(gate);
    let left = spec_mult_transpose(rows, mv);
    let right = spec_col_cx(rows, a, b);
    assert forall|i: int| 0 <= i < 16 implies left[i] == right[i] by {
        let x = rows[i];
        let made = |j: int| spec_parity(x & mv[j]);
        assert forall|j: int| 0 <= j < 16 implies spec_bit(left[i], j) == spec_bit(right[i], j) by {
            lemma_row_bit(made, 16, j);
            let shared = |k: int| spec_bit(x & mv[j], k);
            let vp = spec_bit(x, j);
            let vq = spec_bit(x, b) && j == a;
            let two = |k: int| (k == j && vp) || (k == b && vq);
            assert forall|k: int| 0 <= k < 16 implies #[trigger] shared(k) == two(k) by {
                lemma_bit_ops(x, mv[j], k);
                lemma_row_bit(|l: int| spec_bit(gate[l], j), 16, k);
                lemma_one_bits(k as u16, j as u16);
                if k == b {
                    lemma_bit_ops(1u16 << (b as u16), 1u16 << (a as u16), j);
                    lemma_one_bits(b as u16, j as u16);
                    lemma_one_bits(a as u16, j as u16);
                }
            }
            lemma_xor_sum_ext(shared, two, 16);
            if j == b {
                lemma_xor_sum_two(two, 16, j, a, vp, false);
            } else {
                lemma_xor_sum_two(two, 16, j, b, vp, vq);
            }
            lemma_col_word_bit(x, a as u16, b as u16, j as u16);
        }
        lemma_same_spec_bits(left[i], right[i]);
    }
    assert(left =~= right);
}

/// The operations keep the number of rows.
pub proof fn lemma_all_len(rows: Seq<u16>, gates: Seq<(usize, usize)>)
    ensures
        spec_col_all(rows, gates).len() == rows.len(),
        spec_row_all(rows, gates).len() == rows.len(),
    decreases gates.len(),
{
    if gates.len() > 0 {
        lemma_all_len(spec_col_cx(rows, gates[0].0 as int, gates[0].1 as int), gates.drop_first());
        lemma_all_len(spec_add_cx(rows, gates[0].0 as int, gates[0].1 as int), gates.drop_first());
    }
}

/// Adding a column after a list of gates is adding it before them.
pub proof fn lemma_col_cx_row_all(rows: Seq<u16>, a: int, b: int, gates: Seq<(usize, usize)>)
    requires
        rows.len() == 16,
        0 <= a < 16,
        0 <= b < 16,
        spec_valid_gates(gates),
    ensures
        spec_col_cx(spec_row_all(rows, gates), a, b) == spec_row_all(spec_col_cx(rows, a, b), gates),
    decreases gates.len(),
{
    if gates.len() > 0 {
        let g = gates[0];
        let rest = gates.drop_first();
        assert(crate::synth::spec_valid_pair(g));
        assert forall|k: int| 0 <= k < rest.len() implies crate::synth::spec_valid_pair(#[trigger] rest[k]) by {
            assert(rest[k] == gates[k + 1]);
        }
        lemma_col_cx_add_cx(rows, a, b, g.0 as int, g.1 as int);
        lemma_col_cx_row_all(spec_add_cx(rows, g.0 as int, g.1 as int), a, b, rest);
    }
}

/// The column operations of `back`, applied to the circuit of `forth`, give the
/// circuit of `back` in reverse followed by `forth`.
pub proof fn lemma_col_all_row_all(back: Seq<(usize, usize)>, forth: Seq<(usize, usize)>)
    requires
        spec_valid_gates(back),
        spec_valid_gates(forth),
    ensures
        spec_col_all(spec_row_all(spec_identity(), forth), back) == spec_row_all(
            spec_identity(),
            back.reverse() + forth,
        ),
    decreases back.len(),
{
    if back.len() == 0 {
        assert(back.reverse() + forth =~= forth);
    } else {
        let g = back[0];
        let rest = back.drop_first();
        assert(crate::synth::spec_valid_pair(g));
        assert forall|k: int| 0 <= k < rest.len() implies crate::synth::spec_valid_pair(#[trigger] rest[k]) by {
            assert(rest[k] == back[k + 1]);
        }
        let longer = seq![g] + forth;
        assert forall|k: int| 0 <= k < longer.len() implies crate::synth::spec_valid_pair(#[trigger] longer[k]) by {
            if k > 0 {
                assert(longer[k] == forth[k - 1]);
            }
        }
        lemma_col_cx_row_all(spec_identity(), g.0 as int, g.1 as int, forth);
        lemma_col_cx_identity(g.0 as int, g.1 as int);
        assert(longer[0] == g);
        assert(longer.drop_first() =~= forth);
        assert(spec_row_all(spec_identity(), longer) == spec_row_all(
            spec_add_cx(spec_identity(), g.0 as int, g.1 as int),
            forth,
        ));
        lemma_col_all_row_all(rest, longer);
        assert(rest.reverse() + longer =~= back.reverse() + forth);
    }
}

} // verus!
