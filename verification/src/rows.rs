//! Row vectors over GF(2): what a CX gate, a merge and the row distance do to a
//! sequence of 16-bit rows.

use vstd::prelude::*;

verus! {

/// The rows after `CX(ctrl, tgt)`: row `tgt` becomes its sum with row `ctrl`.
pub open spec fn spec_add_cx(rows: Seq<u16>, ctrl: int, tgt: int) -> Seq<u16> {
    if 0 <= ctrl < rows.len() && 0 <= tgt < rows.len() {
        rows.update(tgt, rows[tgt] ^ rows[ctrl])
    } else {
        rows
    }
}

/// The rows of `a`, with those listed in `used` taken from `b`.
pub open spec fn spec_merge_rows(a: Seq<u16>, b: Seq<u16>, used: Set<u8>) -> Seq<u16> {
    Seq::new(
        a.len(),
        |i: int|
            if 0 <= i < 256 && used.contains(i as u8) {
                b[i]
            } else {
                a[i]
            },
    )
}

/// The number of positions below `n` at which the two sequences differ.
pub open spec fn spec_differing(a: Seq<u16>, b: Seq<u16>, n: nat) -> nat
    decreases n,
{
    if n == 0 {
        0
    } else {
        spec_differing(a, b, (n - 1) as nat) + if a[n - 1] != b[n - 1] {
            1nat
        } else {
            0nat
        }
    }
}

proof fn lemma_xor_twice(x: u16, y: u16)
    by (bit_vector)
    ensures
        (x ^ y) ^ y == x,
{
}

/// Applying the same CX twice gives back the rows it started from.
pub proof fn lemma_add_cx_twice(rows: Seq<u16>, ctrl: int, tgt: int)
    requires
        0 <= ctrl < rows.len(),
        0 <= tgt < rows.len(),
        ctrl != tgt,
    ensures
        spec_add_cx(spec_add_cx(rows, ctrl, tgt), ctrl, tgt) == rows,
{
    lemma_xor_twice(rows[tgt], rows[ctrl]);
    assert(spec_add_cx(spec_add_cx(rows, ctrl, tgt), ctrl, tgt) =~= rows);
}

/// Counts the positions at which two row arrays of the same length differ.
pub fn differing_rows(a: &[u16], b: &[u16]) -> (d: usize)
    requires
        a@.len() == b@.len(),
    ensures
        d == spec_differing(a@, b@, a@.len()),
{
    let mut d: usize = 0;
    let mut i: usize = 0;
    while i < a.len()
        invariant
            i <= a@.len(),
            a@.len() == b@.len(),
            d == spec_differing(a@, b@, i as nat),
            d <= i,
        decreases a@.len() - i,
    {
        if a[i] != b[i] {
            d = d + 1;
        }
        i = i + 1;
    }
    d
}

/// Whether two row arrays hold the same rows.
pub fn same_rows(a: &[u16], b: &[u16]) -> (same: bool)
    ensures
        same == (a@ == b@),
{
    if a.len() != b.len() {
        return false;
    }
    let mut i: usize = 0;
    while i < a.len()
        invariant
            i <= a@.len(),
            a@.len() == b@.len(),
            forall|j: int| 0 <= j < i ==> a@[j] == b@[j],
        decreases a@.len() - i,
    {
        if a[i] != b[i] {
            return false;
        }
        i = i + 1;
    }
    assert(a@ =~= b@);
    true
}

/// Whether bit `j` of `x` is set.
pub open spec fn spec_bit(x: u16, j: int) -> bool {
    (x >> (j as u16)) & 1u16 == 1u16
}

/// Whether an odd number of the bits of `x` is set.
pub open spec fn spec_parity(x: u16) -> bool {
    spec_xor_sum(|k: int| spec_bit(x, k), 16)
}

/// Whether `f` holds at an odd number of the positions below `n`.
pub open spec fn spec_xor_sum(f: spec_fn(int) -> bool, n: nat) -> bool
    decreases n,
{
    if n == 0 {
        false
    } else {
        spec_xor_sum(f, (n - 1) as nat) != f(n - 1)
    }
}

/// The word whose bit `j`, for `j` below `n`, is set exactly where `f(j)` holds.
pub open spec fn spec_row(f: spec_fn(int) -> bool, n: nat) -> u16
    decreases n,
{
    if n == 0 {
        0
    } else {
        spec_row(f, (n - 1) as nat) | if f(n - 1) {
            1u16 << ((n - 1) as u16)
        } else {
            0u16
        }
    }
}

/// The product of `a` with the transpose of `b`: bit `j` of row `i` is the
/// parity of the bits that row `i` of `a` and row `j` of `b` share.
pub open spec fn spec_mult_transpose(a: Seq<u16>, b: Seq<u16>) -> Seq<u16> {
    Seq::new(16, |i: int| spec_row(|j: int| spec_parity(a[i] & b[j]), 16))
}

/// The transpose of `a`: bit `j` of row `i` is bit `i` of row `j` of `a`.
pub open spec fn spec_transpose(a: Seq<u16>) -> Seq<u16> {
    Seq::new(16, |i: int| spec_row(|j: int| spec_bit(a[j], i), 16))
}

/// The product of `a` and `b` over GF(2): bit `j` of row `i` is the sum over
/// `k` of bit `k` of row `i` of `a` times bit `j` of row `k` of `b`.
pub open spec fn spec_mult(a: Seq<u16>, b: Seq<u16>) -> Seq<u16> {
    Seq::new(
        16,
        |i: int| spec_row(|j: int| spec_xor_sum(|k: int| spec_bit(a[i], k) && spec_bit(b[k], j), 16), 16),
    )
}

proof fn lemma_bit_of_or(x: u16, y: u16, q: u16)
    by (bit_vector)
    requires
        q < 16,
    ensures
        ((x | y) >> q) & 1u16 == 1u16 <==> ((x >> q) & 1u16 == 1u16 || (y >> q) & 1u16 == 1u16),
        ((x & y) >> q) & 1u16 == 1u16 <==> ((x >> q) & 1u16 == 1u16 && (y >> q) & 1u16 == 1u16),
        ((x ^ y) >> q) & 1u16 == 1u16 <==> ((x >> q) & 1u16 == 1u16) != ((y >> q) & 1u16 == 1u16),
{
}

proof fn lemma_bit_of_one(p: u16, q: u16)
    by (bit_vector)
    requires
        p < 16,
        q < 16,
    ensures
        ((1u16 << p) >> q) & 1u16 == 1u16 <==> p == q,
        (0u16 >> q) & 1u16 == 0u16,
{
}

/// The bits of a conjunction, of a disjunction and of a sum of two words.
pub proof fn lemma_bit_ops(x: u16, y: u16, j: int)
    requires
        0 <= j < 16,
    ensures
        spec_bit(x | y, j) == (spec_bit(x, j) || spec_bit(y, j)),
        spec_bit(x & y, j) == (spec_bit(x, j) && spec_bit(y, j)),
        spec_bit(x ^ y, j) == (spec_bit(x, j) != spec_bit(y, j)),
{
    lemma_bit_of_or(x, y, j as u16);
}

/// Bit `j` of the word that `spec_row` builds is set exactly where `f(j)` holds.
pub proof fn lemma_row_bit(f: spec_fn(int) -> bool, n: nat, j: int)
    requires
        n <= 16,
        0 <= j < 16,
    ensures
        spec_bit(spec_row(f, n), j) == (j < n && f(j)),
    decreases n,
{
    if n == 0 {
        lemma_bit_of_one(0, j as u16);
    } else {
        lemma_row_bit(f, (n - 1) as nat, j);
        let front = spec_row(f, (n - 1) as nat);
        let last: u16 = if f(n - 1) { 1u16 << ((n - 1) as u16) } else { 0u16 };
        lemma_bit_of_or(front, last, j as u16);
        lemma_bit_of_one((n - 1) as u16, j as u16);
    }
}

/// Words built from functions that agree below `n` are the same word.
pub proof fn lemma_row_ext(f: spec_fn(int) -> bool, g: spec_fn(int) -> bool, n: nat)
    requires
        forall|j: int| 0 <= j < n ==> #[trigger] f(j) == g(j),
    ensures
        spec_row(f, n) == spec_row(g, n),
    decreases n,
{
    if n > 0 {
        lemma_row_ext(f, g, (n - 1) as nat);
    }
}

/// Sums over functions that agree below `n` are the same.
pub proof fn lemma_xor_sum_ext(f: spec_fn(int) -> bool, g: spec_fn(int) -> bool, n: nat)
    requires
        forall|k: int| 0 <= k < n ==> #[trigger] f(k) == g(k),
    ensures
        spec_xor_sum(f, n) == spec_xor_sum(g, n),
    decreases n,
{
    if n > 0 {
        lemma_xor_sum_ext(f, g, (n - 1) as nat);
    }
}

/// A word is the word built from its own bits.
pub proof fn lemma_row_of_bits(x: u16)
    ensures
        spec_row(|j: int| spec_bit(x, j), 16) == x,
{
    let f = |j: int| spec_bit(x, j);
    let built = spec_row(f, 16);
    assert forall|q: u8| q < 16 implies crate::qubit_set::bit_at(built, q) == crate::qubit_set::bit_at(x, q) by {
        lemma_row_bit(f, 16, q as int);
    }
    crate::qubit_set::lemma_same_bits(built, x);
}

/// The sum, as a word that is 0 or 1, of the bits of `x` below `n`.
spec fn spec_xor_word(x: u16, n: nat) -> u16
    decreases n,
{
    if n == 0 {
        0u16
    } else {
        spec_xor_word(x, (n - 1) as nat) ^ ((x >> ((n - 1) as u16)) & 1u16)
    }
}

proof fn lemma_xor_of_bits(a: u16, x: u16, q: u16)
    by (bit_vector)
    requires
        a == 0 || a == 1,
    ensures
        a ^ ((x >> q) & 1u16) == 0 || a ^ ((x >> q) & 1u16) == 1,
        (a ^ ((x >> q) & 1u16) == 1) == ((a == 1) != ((x >> q) & 1u16 == 1u16)),
{
}

proof fn lemma_xor_word(x: u16, n: nat)
    requires
        n <= 16,
    ensures
        spec_xor_word(x, n) == 0 || spec_xor_word(x, n) == 1,
        (spec_xor_word(x, n) == 1) == spec_xor_sum(|k: int| spec_bit(x, k), n),
    decreases n,
{
    if n > 0 {
        lemma_xor_word(x, (n - 1) as nat);
        lemma_xor_of_bits(spec_xor_word(x, (n - 1) as nat), x, (n - 1) as u16);
    }
}

proof fn lemma_fold_parity(x: u16)
    by (bit_vector)
    ensures
        ((((x ^ (x >> 8u16)) ^ ((x ^ (x >> 8u16)) >> 4u16)) ^ (((x ^ (x >> 8u16)) ^ ((x ^ (x >> 8u16)) >> 4u16))
            >> 2u16)) ^ ((((x ^ (x >> 8u16)) ^ ((x ^ (x >> 8u16)) >> 4u16)) ^ (((x ^ (x >> 8u16)) ^ ((x ^ (x
            >> 8u16)) >> 4u16)) >> 2u16)) >> 1u16)) & 1u16 == 0u16 ^ ((x >> 0u16) & 1u16) ^ ((x >> 1u16) & 1u16)
            ^ ((x >> 2u16) & 1u16) ^ ((x >> 3u16) & 1u16) ^ ((x >> 4u16) & 1u16) ^ ((x >> 5u16) & 1u16) ^ ((x
            >> 6u16) & 1u16) ^ ((x >> 7u16) & 1u16) ^ ((x >> 8u16) & 1u16) ^ ((x >> 9u16) & 1u16) ^ ((x >> 10u16)
            & 1u16) ^ ((x >> 11u16) & 1u16) ^ ((x >> 12u16) & 1u16) ^ ((x >> 13u16) & 1u16) ^ ((x >> 14u16) & 1u16)
            ^ ((x >> 15u16) & 1u16),
{
}

proof fn lemma_xor_word_unfolded(x: u16)
    ensures
        spec_xor_word(x, 16) == 0u16 ^ ((x >> 0u16) & 1u16) ^ ((x >> 1u16) & 1u16) ^ ((x >> 2u16) & 1u16) ^ ((x
            >> 3u16) & 1u16) ^ ((x >> 4u16) & 1u16) ^ ((x >> 5u16) & 1u16) ^ ((x >> 6u16) & 1u16) ^ ((x >> 7u16)
            & 1u16) ^ ((x >> 8u16) & 1u16) ^ ((x >> 9u16) & 1u16) ^ ((x >> 10u16) & 1u16) ^ ((x >> 11u16) & 1u16)
            ^ ((x >> 12u16) & 1u16) ^ ((x >> 13u16) & 1u16) ^ ((x >> 14u16) & 1u16) ^ ((x >> 15u16) & 1u16),
{
    reveal_with_fuel(spec_xor_word, 17);
}

/// Whether an odd number of the bits of `x` is set.
pub fn parity(x: u16) -> (p: bool)
    ensures
        p == spec_parity(x),
{
    let y8 = x ^ (x >> 8u16);
    let y4 = y8 ^ (y8 >> 4u16);
    let y2 = y4 ^ (y4 >> 2u16);
    let y1 = y2 ^ (y2 >> 1u16);
    proof {
        lemma_fold_parity(x);
        lemma_xor_word_unfolded(x);
        lemma_xor_word(x, 16);
        assert(y1 & 1u16 == spec_xor_word(x, 16));
    }
    y1 & 1u16 == 1u16
}

proof fn lemma_or_zero(x: u16)
    by (bit_vector)
    ensures
        x | 0u16 == x,
{
}

/// The word whose bit `j` is the parity of the bits that `x` and row `j` of
/// `rows` share.
pub fn products_row(x: u16, rows: &[u16; 16]) -> (row: u16)
    ensures
        row == spec_row(|j: int| spec_parity(x & rows@[j]), 16),
{
    let ghost f = |j: int| spec_parity(x & rows@[j]);
    let mut row: u16 = 0;
    let mut j: usize = 0;
    while j < 16
        invariant
            j <= 16,
            f == (|j: int| spec_parity(x & rows@[j])),
            row == spec_row(f, j as nat),
        decreases 16 - j,
    {
        if parity(x & rows[j]) {
            row = row | (1u16 << (j as u16));
        } else {
            proof {
                lemma_or_zero(row);
            }
        }
        j = j + 1;
    }
    row
}

/// The word whose bit `j` is bit `i` of row `j` of `rows`.
pub fn column_of(rows: &[u16; 16], i: usize) -> (row: u16)
    requires
        i < 16,
    ensures
        row == spec_row(|j: int| spec_bit(rows@[j], i as int), 16),
{
    let ghost f = |j: int| spec_bit(rows@[j], i as int);
    let mut row: u16 = 0;
    let mut j: usize = 0;
    while j < 16
        invariant
            j <= 16,
            i < 16,
            f == (|j: int| spec_bit(rows@[j], i as int)),
            row == spec_row(f, j as nat),
        decreases 16 - j,
    {
        if (rows[j] >> (i as u16)) & 1u16 == 1u16 {
            row = row | (1u16 << (j as u16));
        } else {
            proof {
                lemma_or_zero(row);
            }
        }
        j = j + 1;
    }
    row
}

/// The transpose of the transpose of sixteen rows is those rows.
pub proof fn lemma_transpose_twice(a: Seq<u16>)
    requires
        a.len() == 16,
    ensures
        spec_transpose(spec_transpose(a)) == a,
{
    let t = spec_transpose(a);
    let tt = spec_transpose(t);
    assert forall|i: int| 0 <= i < 16 implies tt[i] == a[i] by {
        let f = |j: int| spec_bit(t[j], i);
        let g = |j: int| spec_bit(a[i], j);
        assert forall|j: int| 0 <= j < 16 implies #[trigger] f(j) == g(j) by {
            lemma_row_bit(|k: int| spec_bit(a[k], j), 16, i);
        }
        lemma_row_ext(f, g, 16);
        lemma_row_of_bits(a[i]);
    }
    assert(tt =~= a);
}

/// The product of two matrices is the product of the first with the transpose
/// of the transpose of the second.
pub proof fn lemma_mult_by_transpose(a: Seq<u16>, b: Seq<u16>)
    requires
        a.len() == 16,
        b.len() == 16,
    ensures
        spec_mult(a, b) == spec_mult_transpose(a, spec_transpose(b)),
{
    let bt = spec_transpose(b);
    let left = spec_mult(a, b);
    let right = spec_mult_transpose(a, bt);
    assert forall|i: int| 0 <= i < 16 implies left[i] == right[i] by {
        let f = |j: int| spec_xor_sum(|k: int| spec_bit(a[i], k) && spec_bit(b[k], j), 16);
        let g = |j: int| spec_parity(a[i] & bt[j]);
        assert forall|j: int| 0 <= j < 16 implies #[trigger] f(j) == g(j) by {
            let p = |k: int| spec_bit(a[i], k) && spec_bit(b[k], j);
            let q = |k: int| spec_bit(a[i] & bt[j], k);
            assert forall|k: int| 0 <= k < 16 implies #[trigger] p(k) == q(k) by {
                lemma_bit_ops(a[i], bt[j], k);
                lemma_row_bit(|l: int| spec_bit(b[l], j), 16, k);
            }
            lemma_xor_sum_ext(p, q, 16);
        }
        lemma_row_ext(f, g, 16);
    }
    assert(left =~= right);
}

proof fn lemma_or_nothing(x: u16)
    by (bit_vector)
    ensures
        x | 0u16 == x,
{
}

/// A word built up to `n` is the word built up to `m` where `f` holds nowhere from `n` on.
pub proof fn lemma_row_tail(f: spec_fn(int) -> bool, n: nat, m: nat)
    requires
        n <= m <= 16,
        forall|j: int| n <= j < 16 ==> !#[trigger] f(j),
    ensures
        spec_row(f, n) == spec_row(f, m),
    decreases m,
{
    if n < m {
        lemma_row_tail(f, n, (m - 1) as nat);
        assert(!f(m - 1));
        lemma_or_nothing(spec_row(f, (m - 1) as nat));
    }
}

/// The word whose bit `j` is set where flag `j` is set.
pub open spec fn spec_flags_row(flags: Seq<bool>) -> u16 {
    spec_row(|j: int| 0 <= j < flags.len() && flags[j], 16)
}

/// The word whose bit `j` is set where flag `j` is set.
pub fn row_of_flags(flags: &Vec<bool>) -> (row: u16)
    requires
        flags@.len() <= 16,
    ensures
        row == spec_flags_row(flags@),
{
    let ghost f = |j: int| 0 <= j < flags@.len() && flags@[j];
    let mut row: u16 = 0;
    let mut j: usize = 0;
    while j < flags.len()
        invariant
            j <= flags@.len() <= 16,
            f == (|j: int| 0 <= j < flags@.len() && flags@[j]),
            row == spec_row(f, j as nat),
        decreases flags@.len() - j,
    {
        if flags[j] {
            row = row | (1u16 << (j as u16));
        } else {
            proof {
                lemma_or_nothing(row);
            }
        }
        j = j + 1;
    }
    proof {
        lemma_row_tail(f, flags@.len(), 16);
    }
    row
}

} // verus!
