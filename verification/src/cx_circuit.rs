//! Circuits with only CX gates.

use vstd::prelude::*;
use crate::a_star::AStarValue;
use crate::invertible::{
    lemma_add_cx_independent, lemma_identity_independent, lemma_independent_rows_differ, spec_independent,
};
use crate::qubit_set::QubitSet;
use crate::rows::{
    column_of, differing_rows, lemma_mult_by_transpose, lemma_transpose_twice, products_row, same_rows, spec_add_cx,
    spec_differing, spec_merge_rows, spec_mult, spec_mult_transpose, spec_transpose,
};

verus! {

/// The rows of the identity: row `i` has bit `i` alone.
pub open spec fn spec_identity() -> Seq<u16> {
    Seq::new(16, |i: int| 1u16 << (i as u16))
}

/// A CX circuit on a fixed number of qubits.
pub trait CXCircuit: Sized + Copy {
    /// The number of qubits.
    spec fn num_qubits() -> nat;

    /// The circuit without gates.
    spec fn spec_new() -> Self;

    /// The circuit followed by `CX(ctrl, tgt)`.
    spec fn spec_add_cx(&self, ctrl: int, tgt: int) -> Self;

    /// Whether `CX(ctrl, tgt)` can follow the circuit.
    spec fn spec_can_add_cx(&self, ctrl: int, tgt: int) -> bool;

    /// The product of the circuit's matrix with the transpose of that of `other`.
    spec fn spec_mult_transpose(&self, other: &Self) -> Self;

    /// The circuit whose matrix is the transpose.
    spec fn spec_transpose(&self) -> Self;

    /// The number by which a table places the circuit.
    spec fn spec_hash(&self) -> u32;

    /// The circuit of the gates in `cxs`, each a pair of control and target, in their order.
    spec fn spec_from_cxs(cxs: Seq<(usize, usize)>) -> Self;

    /// The circuit of no gate is the new circuit; that of a list of gates is the
    /// circuit of all but the last, followed by the last.
    proof fn lemma_from_cxs(cxs: Seq<(usize, usize)>)
        ensures
            Self::spec_from_cxs(cxs) == if cxs.len() == 0 {
                Self::spec_new()
            } else {
                Self::spec_from_cxs(cxs.drop_last()).spec_add_cx(cxs.last().0 as int, cxs.last().1 as int)
            },
    ;

    /// What ties the gates to the products. The new circuit composed with the
    /// transposed circuit of one gate is the circuit of that gate; a gate after
    /// a circuit, composed with another circuit, is that gate after the
    /// composition; composing twice with the transposed circuit of one gate
    /// changes nothing; and the product with a circuit that was composed with
    /// the transposed circuit of a gate is the product with the circuit,
    /// composed with it.
    proof fn lemma_gate_products(&self, other: &Self, ctrl: int, tgt: int)
        requires
            0 <= ctrl < Self::num_qubits(),
            0 <= tgt < Self::num_qubits(),
            ctrl != tgt,
        ensures
            Self::spec_new().spec_mult_transpose(&Self::spec_new().spec_add_cx(ctrl, tgt).spec_transpose())
                == Self::spec_new().spec_add_cx(ctrl, tgt),
            self.spec_add_cx(ctrl, tgt).spec_mult_transpose(other) == self.spec_mult_transpose(other).spec_add_cx(
                ctrl,
                tgt,
            ),
            self.spec_mult_transpose(&Self::spec_new().spec_add_cx(ctrl, tgt).spec_transpose()).spec_mult_transpose(
                &Self::spec_new().spec_add_cx(ctrl, tgt).spec_transpose(),
            ) == *self,
            self.spec_mult_transpose(
                &other.spec_mult_transpose(&Self::spec_new().spec_add_cx(ctrl, tgt).spec_transpose()).spec_transpose(),
            ) == self.spec_mult_transpose(&other.spec_transpose()).spec_mult_transpose(
                &Self::spec_new().spec_add_cx(ctrl, tgt).spec_transpose(),
            ),
    ;

    /// The product of a circuit with the new circuit is the circuit.
    proof fn lemma_new_product(&self)
        ensures
            self.spec_mult_transpose(&Self::spec_new().spec_transpose()) == *self,
    ;

    /// A new CX circuit, without gates.
    fn new() -> (c: Self)
        ensures
            c == Self::spec_new(),
    ;

    /// Applies a CX gate to the circuit.
    fn add_cx(&mut self, ctrl: usize, tgt: usize)
        requires
            ctrl < Self::num_qubits(),
            tgt < Self::num_qubits(),
            old(self).spec_can_add_cx(ctrl as int, tgt as int),
        ensures
            *final(self) == old(self).spec_add_cx(ctrl as int, tgt as int),
    ;

    /// Composes the circuit with the transpose of `other`.
    fn mult_transpose(&self, other: &Self) -> (r: Self)
        ensures
            r == self.spec_mult_transpose(other),
    ;

    /// The transpose of the circuit.
    fn transpose(&self) -> (r: Self)
        ensures
            r == self.spec_transpose(),
    ;

    /// The number by which a table places the circuit; equal circuits have equal numbers.
    fn hash(&self) -> (h: u32)
        ensures
            h == self.spec_hash(),
    ;

    /// Whether the two circuits are the same.
    fn same(&self, other: &Self) -> (b: bool)
        ensures
            b == (*self == *other),
    ;

    /// Composes two CX circuits.
    fn mult(&self, other: &Self) -> (r: Self)
        ensures
            r == self.spec_mult_transpose(&other.spec_transpose()),
    {
        let other_t = other.transpose();
        self.mult_transpose(&other_t)
    }

    /// The circuit of the gates in `cxs`, each a pair of control and target, in
    /// their order. Each gate can follow the circuit of those before it.
    fn from_cxs(cxs: &Vec<(usize, usize)>) -> (c: Self)
        requires
            forall|k: int|
                0 <= k < cxs@.len() ==> (#[trigger] cxs@[k]).0 < Self::num_qubits() && cxs@[k].1 < Self::num_qubits(),
            forall|k: int|
                0 <= k < cxs@.len() ==> (#[trigger] Self::spec_from_cxs(cxs@.take(k))).spec_can_add_cx(
                    cxs@[k].0 as int,
                    cxs@[k].1 as int,
                ),
        ensures
            c == Self::spec_from_cxs(cxs@),
    {
        let mut c = Self::new();
        let mut k: usize = 0;
        proof {
            Self::lemma_from_cxs(cxs@.take(0));
        }
        while k < cxs.len()
            invariant
                k <= cxs@.len(),
                forall|k: int|
                    0 <= k < cxs@.len() ==> (#[trigger] cxs@[k]).0 < Self::num_qubits() && cxs@[k].1 < Self::num_qubits(),
                forall|k: int|
                    0 <= k < cxs@.len() ==> (#[trigger] Self::spec_from_cxs(cxs@.take(k))).spec_can_add_cx(
                        cxs@[k].0 as int,
                        cxs@[k].1 as int,
                    ),
                c == Self::spec_from_cxs(cxs@.take(k as int)),
            decreases cxs@.len() - k,
        {
            proof {
                let next = cxs@.take(k as int + 1);
                Self::lemma_from_cxs(next);
                assert(next.drop_last() =~= cxs@.take(k as int));
                assert(next.last() == cxs@[k as int]);
                assert(Self::spec_from_cxs(cxs@.take(k as int)).spec_can_add_cx(
                    cxs@[k as int].0 as int,
                    cxs@[k as int].1 as int,
                ));
            }
            c.add_cx(cxs[k].0, cxs[k].1);
            k = k + 1;
        }
        assert(cxs@.take(cxs@.len() as int) =~= cxs@);
        c
    }
}

/// The rows of the circuit of the gates in `cxs`, in their order.
pub open spec fn spec_rows_of_cxs(cxs: Seq<(usize, usize)>) -> Seq<u16>
    decreases cxs.len(),
{
    if cxs.len() == 0 {
        spec_identity()
    } else {
        spec_add_cx(spec_rows_of_cxs(cxs.drop_last()), cxs.last().0 as int, cxs.last().1 as int)
    }
}

/// The circuit of a list of gates has sixteen rows.
pub proof fn lemma_rows_of_cxs_len(cxs: Seq<(usize, usize)>)
    ensures
        spec_rows_of_cxs(cxs).len() == 16,
    decreases cxs.len(),
{
    if cxs.len() > 0 {
        lemma_rows_of_cxs_len(cxs.drop_last());
    }
}

/// Whether every gate in `cxs` is on two different qubits below 16.
pub open spec fn spec_proper_cxs(cxs: Seq<(usize, usize)>) -> bool {
    forall|k: int| 0 <= k < cxs.len() ==> (#[trigger] cxs[k]).0 < 16 && cxs[k].1 < 16 && cxs[k].0 != cxs[k].1
}

/// The circuit of gates on two different qubits each is invertible.
pub proof fn lemma_cxs_invertible(cxs: Seq<(usize, usize)>)
    requires
        spec_proper_cxs(cxs),
    ensures
        spec_independent(spec_rows_of_cxs(cxs)),
        CXCircuit16::spec_from_cxs(cxs)@ == spec_rows_of_cxs(cxs),
        CXCircuit16::spec_from_cxs(cxs).spec_invertible(),
    decreases cxs.len(),
{
    lemma_rows_of_cxs_len(cxs);
    CXCircuit16::lemma_of_rows(spec_rows_of_cxs(cxs));
    if cxs.len() == 0 {
        lemma_identity_independent();
    } else {
        lemma_cxs_invertible(cxs.drop_last());
        lemma_add_cx_independent(spec_rows_of_cxs(cxs.drop_last()), cxs.last().0 as int, cxs.last().1 as int);
    }
}

/// Each of a list of gates on two different qubits can follow the circuit of
/// those before it.
pub proof fn lemma_cxs_can_follow(cxs: Seq<(usize, usize)>)
    requires
        spec_proper_cxs(cxs),
    ensures
        forall|k: int|
            0 <= k < cxs.len() ==> (#[trigger] CXCircuit16::spec_from_cxs(cxs.take(k))).spec_can_add_cx(
                cxs[k].0 as int,
                cxs[k].1 as int,
            ),
{
    assert forall|k: int| 0 <= k < cxs.len() implies (#[trigger] CXCircuit16::spec_from_cxs(
        cxs.take(k),
    )).spec_can_add_cx(cxs[k].0 as int, cxs[k].1 as int) by {
        lemma_cxs_invertible(cxs.take(k));
        lemma_independent_rows_differ(spec_rows_of_cxs(cxs.take(k)), cxs[k].0 as int, cxs[k].1 as int);
    }
}

/// The four 64-bit words that hold the sixteen rows, four rows a word, the
/// first row lowest.
pub open spec fn spec_pack(rows: Seq<u16>) -> Seq<u64> {
    Seq::new(4, |k: int| spec_pack_word(rows[4 * k], rows[4 * k + 1], rows[4 * k + 2], rows[4 * k + 3]))
}

/// The 64-bit word that holds four rows, the first lowest.
pub open spec fn spec_pack_word(r0: u16, r1: u16, r2: u16, r3: u16) -> u64 {
    (r0 as u64) | ((r1 as u64) << 16u64) | ((r2 as u64) << 32u64) | ((r3 as u64) << 48u64)
}

/// What `fxhash::hash64` gives for an array of 64-bit words.
pub uninterp spec fn fx_hash64(words: Seq<u64>) -> u64;

/// `fxhash::hash64` on an array of four words: the Fx hash of the array, which
/// depends on the words alone.
#[verifier::external_body]
fn fx_hash_words(words: &[u64; 4]) -> (h: u64)
    ensures
        h == fx_hash64(words@),
{
    fxhash::hash64(words)
}

/// The number by which a table places the rows: the low half of the Fx hash of
/// the packed rows.
pub open spec fn spec_hash_rows(rows: Seq<u16>) -> u32 {
    (fx_hash64(spec_pack(rows)) & 0xffff_ffffu64) as u32
}

proof fn lemma_low_half(h: u64)
    by (bit_vector)
    ensures
        h & 0xffff_ffffu64 <= 0xffff_ffffu64,
{
}

/// A 16-qubit CX circuit, as a 16×16 matrix over GF(2): one 16-bit word a row.
#[derive(Clone, Copy, Debug, Eq, Ord, PartialEq, PartialOrd, Hash)]
pub struct CXCircuit16 {
    matrix: [u16; 16],
}

impl View for CXCircuit16 {
    type V = Seq<u16>;

    closed spec fn view(&self) -> Seq<u16> {
        self.matrix@
    }
}

proof fn lemma_shift_nonzero(i: u16)
    by (bit_vector)
    requires
        i < 16,
    ensures
        1u16 << i != 0,
{
}

proof fn lemma_xor_nonzero(x: u16, y: u16)
    by (bit_vector)
    requires
        x != y,
    ensures
        x ^ y != 0,
{
}

impl CXCircuit16 {
    /// No row is zero.
    pub open spec fn wf(&self) -> bool {
        forall|i: int| 0 <= i < 16 ==> self@[i] != 0
    }

    /// The matrix is invertible: no sum of rows, but the sum of none, is zero.
    pub open spec fn spec_invertible(&self) -> bool {
        spec_independent(self@)
    }

    /// An invertible matrix has no zero row, and a CX gate on two different
    /// qubits can follow it and keeps it invertible.
    pub proof fn lemma_invertible(&self, ctrl: int, tgt: int)
        requires
            self.spec_invertible(),
            0 <= ctrl < 16,
            0 <= tgt < 16,
            ctrl != tgt,
        ensures
            self.wf(),
            self.spec_can_add_cx(ctrl, tgt),
            self.spec_add_cx(ctrl, tgt).spec_invertible(),
    {
        assert forall|i: int| 0 <= i < 16 implies self@[i] != 0 by {
            lemma_independent_rows_differ(self@, i, if i == 0 { 1 } else { 0 });
        }
        lemma_independent_rows_differ(self@, ctrl, tgt);
        lemma_add_cx_independent(self@, ctrl, tgt);
        CXCircuit16::lemma_of_rows(spec_add_cx(self@, ctrl, tgt));
    }

    /// A circuit has sixteen rows.
    pub proof fn lemma_len(&self)
        ensures
            self@.len() == 16,
    {
    }

    /// Circuits with the same rows are the same circuit.
    pub proof fn lemma_view_injective(&self, other: &CXCircuit16)
        requires
            self@ == other@,
        ensures
            *self == *other,
    {
        assert(self.matrix =~= other.matrix);
    }

    /// The circuit with the sixteen rows `rows`.
    pub closed spec fn of_rows(rows: Seq<u16>) -> CXCircuit16 {
        CXCircuit16 { matrix: choose|a: [u16; 16]| a@ == rows }
    }

    /// Sixteen rows make a circuit, and it has those rows.
    pub proof fn lemma_of_rows(rows: Seq<u16>)
        requires
            rows.len() == 16,
        ensures
            CXCircuit16::of_rows(rows)@ == rows,
    {
        let a: [u16; 16] = [
            rows[0], rows[1], rows[2], rows[3], rows[4], rows[5], rows[6], rows[7],
            rows[8], rows[9], rows[10], rows[11], rows[12], rows[13], rows[14], rows[15],
        ];
        assert(a@ =~= rows);
    }

    /// The circuit with the sixteen rows given, none of them zero.
    pub fn from_mat(matrix: [u16; 16]) -> (c: CXCircuit16)
        requires
            forall|i: int| 0 <= i < 16 ==> matrix@[i] != 0,
        ensures
            c@ == matrix@,
            c.wf(),
    {
        CXCircuit16 { matrix }
    }

    /// The sixteen rows.
    pub fn rows(&self) -> (rows: [u16; 16])
        ensures
            rows@ == self@,
    {
        self.matrix
    }

    /// A circuit is the circuit of its rows.
    pub proof fn lemma_is_of_rows(&self)
        ensures
            *self == CXCircuit16::of_rows(self@),
    {
        CXCircuit16::lemma_of_rows(self@);
        self.lemma_view_injective(&CXCircuit16::of_rows(self@));
    }
}

/// The rows of the identity matrix.
pub fn eye() -> (matrix: [u16; 16])
    ensures
        matrix@ == spec_identity(),
{
    let mut matrix: [u16; 16] = [1u16; 16];
    let mut i: usize = 0;
    while i < 16
        invariant
            i <= 16,
            forall|j: int| 0 <= j < i ==> matrix@[j] == 1u16 << (j as u16),
        decreases 16 - i,
    {
        matrix[i] = 1u16 << (i as u16);
        i = i + 1;
    }
    assert(matrix@ =~= spec_identity());
    matrix
}

impl CXCircuit for CXCircuit16 {
    open spec fn num_qubits() -> nat {
        16
    }

    open spec fn spec_new() -> Self {
        CXCircuit16::of_rows(spec_identity())
    }

    open spec fn spec_add_cx(&self, ctrl: int, tgt: int) -> Self {
        CXCircuit16::of_rows(spec_add_cx(self@, ctrl, tgt))
    }

    /// The sum of the two rows is stored in a row, and no row is zero.
    open spec fn spec_can_add_cx(&self, ctrl: int, tgt: int) -> bool {
        self@[ctrl] != self@[tgt]
    }

    open spec fn spec_mult_transpose(&self, other: &Self) -> Self {
        CXCircuit16::of_rows(spec_mult_transpose(self@, other@))
    }

    open spec fn spec_transpose(&self) -> Self {
        CXCircuit16::of_rows(spec_transpose(self@))
    }

    open spec fn spec_hash(&self) -> u32 {
        spec_hash_rows(self@)
    }

    open spec fn spec_from_cxs(cxs: Seq<(usize, usize)>) -> Self {
        CXCircuit16::of_rows(spec_rows_of_cxs(cxs))
    }

    proof fn lemma_from_cxs(cxs: Seq<(usize, usize)>) {
        if cxs.len() > 0 {
            let front = cxs.drop_last();
            lemma_rows_of_cxs_len(front);
            CXCircuit16::lemma_of_rows(spec_rows_of_cxs(front));
            let before = Self::spec_from_cxs(front);
            assert(before@ == spec_rows_of_cxs(front));
            assert(Self::spec_from_cxs(cxs) == before.spec_add_cx(cxs.last().0 as int, cxs.last().1 as int));
        } else {
            assert(Self::spec_from_cxs(cxs) == Self::spec_new());
        }
    }

    proof fn lemma_gate_products(&self, other: &Self, ctrl: int, tgt: int) {
        let root = Self::spec_new();
        let gate = root.spec_add_cx(ctrl, tgt);
        let mv = gate.spec_transpose();
        CXCircuit16::lemma_of_rows(spec_identity());
        CXCircuit16::lemma_of_rows(spec_add_cx(spec_identity(), ctrl, tgt));
        CXCircuit16::lemma_of_rows(spec_transpose(spec_add_cx(spec_identity(), ctrl, tgt)));
        assert(mv@ == spec_transpose(spec_add_cx(spec_identity(), ctrl, tgt)));
        // The new circuit and one move.
        CXCircuit16::lemma_of_rows(spec_mult_transpose(root@, mv@));
        crate::column_ops::lemma_move_is_col_cx(root@, ctrl, tgt);
        crate::column_ops::lemma_col_cx_identity(ctrl, tgt);
        root.spec_mult_transpose(&mv).lemma_view_injective(&gate);
        // A gate before a product.
        let after = self.spec_add_cx(ctrl, tgt);
        CXCircuit16::lemma_of_rows(spec_add_cx(self@, ctrl, tgt));
        CXCircuit16::lemma_of_rows(spec_mult_transpose(after@, other@));
        CXCircuit16::lemma_of_rows(spec_mult_transpose(self@, other@));
        CXCircuit16::lemma_of_rows(spec_add_cx(spec_mult_transpose(self@, other@), ctrl, tgt));
        let turned = spec_transpose(other@);
        lemma_transpose_twice(other@);
        lemma_mult_by_transpose(after@, turned);
        lemma_mult_by_transpose(self@, turned);
        crate::row_products::lemma_mult_add_cx(self@, turned, ctrl, tgt);
        after.spec_mult_transpose(other).lemma_view_injective(&self.spec_mult_transpose(other).spec_add_cx(ctrl, tgt));
        // One move twice.
        let once = self.spec_mult_transpose(&mv);
        CXCircuit16::lemma_of_rows(spec_mult_transpose(self@, mv@));
        CXCircuit16::lemma_of_rows(spec_mult_transpose(once@, mv@));
        crate::column_ops::lemma_move_is_col_cx(self@, ctrl, tgt);
        crate::column_ops::lemma_move_is_col_cx(once@, ctrl, tgt);
        crate::column_ops::lemma_col_cx_twice(self@, ctrl, tgt);
        once.spec_mult_transpose(&mv).lemma_view_injective(self);
        // A product with a circuit that was composed with a move.
        let moved = other.spec_mult_transpose(&mv);
        let product = self.spec_mult_transpose(&other.spec_transpose());
        CXCircuit16::lemma_of_rows(spec_mult_transpose(other@, mv@));
        crate::column_ops::lemma_move_is_col_cx(other@, ctrl, tgt);
        lemma_mult(*self, moved);
        lemma_mult(*self, *other);
        crate::row_products::lemma_mult_col_cx(self@, other@, ctrl, tgt);
        CXCircuit16::lemma_of_rows(spec_mult_transpose(product@, mv@));
        crate::column_ops::lemma_move_is_col_cx(product@, ctrl, tgt);
        self.spec_mult_transpose(&moved.spec_transpose()).lemma_view_injective(&product.spec_mult_transpose(&mv));
    }

    proof fn lemma_new_product(&self) {
        let root = Self::spec_new();
        CXCircuit16::lemma_of_rows(spec_identity());
        lemma_mult(*self, root);
        crate::row_products::lemma_mult_by_identity(self@);
        self.spec_mult_transpose(&root.spec_transpose()).lemma_view_injective(self);
    }

    fn new() -> (c: Self)
        ensures
            c@ == spec_identity(),
            c.wf(),
            c.spec_invertible(),
    {
        let c = CXCircuit16 { matrix: eye() };
        proof {
            lemma_identity_independent();
            assert forall|i: int| 0 <= i < 16 implies c@[i] != 0 by {
                lemma_shift_nonzero(i as u16);
            }
            c.lemma_is_of_rows();
            assert(c == Self::spec_new());
        }
        c
    }

    fn add_cx(&mut self, ctrl: usize, tgt: usize)
        ensures
            final(self)@ == spec_add_cx(old(self)@, ctrl as int, tgt as int),
            old(self).wf() ==> final(self).wf(),
            old(self).spec_invertible() ==> final(self).spec_invertible(),
    {
        let ctrl_value = self.matrix[ctrl];
        let tgt_value = self.matrix[tgt];
        self.matrix[tgt] = tgt_value ^ ctrl_value;
        proof {
            lemma_xor_nonzero(tgt_value, ctrl_value);
            if old(self).spec_invertible() {
                lemma_add_cx_independent(old(self)@, ctrl as int, tgt as int);
            }
            self.lemma_is_of_rows();
            assert(self@ =~= spec_add_cx(old(self)@, ctrl as int, tgt as int));
            assert(*self == old(self).spec_add_cx(ctrl as int, tgt as int));
        }
    }

    fn mult_transpose(&self, other: &Self) -> (r: Self)
        ensures
            r@ == spec_mult_transpose(self@, other@),
    {
        let mut result: [u16; 16] = [0u16; 16];
        let mut i: usize = 0;
        while i < 16
            invariant
                i <= 16,
                forall|k: int| 0 <= k < i ==> result@[k] == spec_mult_transpose(self@, other@)[k],
            decreases 16 - i,
        {
            result[i] = products_row(self.matrix[i], &other.matrix);
            i = i + 1;
        }
        let r = CXCircuit16 { matrix: result };
        proof {
            assert(r@ =~= spec_mult_transpose(self@, other@));
            r.lemma_is_of_rows();
        }
        r
    }

    fn transpose(&self) -> (r: Self)
        ensures
            r@ == spec_transpose(self@),
    {
        let mut result: [u16; 16] = [0u16; 16];
        let mut i: usize = 0;
        while i < 16
            invariant
                i <= 16,
                forall|k: int| 0 <= k < i ==> result@[k] == spec_transpose(self@)[k],
            decreases 16 - i,
        {
            result[i] = column_of(&self.matrix, i);
            i = i + 1;
        }
        let r = CXCircuit16 { matrix: result };
        proof {
            assert(r@ =~= spec_transpose(self@));
            r.lemma_is_of_rows();
        }
        r
    }

    fn hash(&self) -> (h: u32) {
        let mut words: [u64; 4] = [0u64; 4];
        let mut k: usize = 0;
        while k < 4
            invariant
                k <= 4,
                forall|j: int| 0 <= j < k ==> words@[j] == spec_pack(self@)[j],
            decreases 4 - k,
        {
            let r0 = self.matrix[4 * k];
            let r1 = self.matrix[4 * k + 1];
            let r2 = self.matrix[4 * k + 2];
            let r3 = self.matrix[4 * k + 3];
            words[k] = (r0 as u64) | ((r1 as u64) << 16u64) | ((r2 as u64) << 32u64) | ((r3 as u64) << 48u64);
            k = k + 1;
        }
        assert(words@ =~= spec_pack(self@));
        let h = fx_hash_words(&words);
        proof {
            lemma_low_half(h);
        }
        (h & 0xffff_ffffu64) as u32
    }

    fn same(&self, other: &Self) -> (b: bool) {
        let b = same_rows(&self.matrix, &other.matrix);
        proof {
            if b {
                self.lemma_view_injective(other);
            }
        }
        b
    }
}

/// The product of two circuits is the product of the first with the transpose of
/// the transpose of the second.
pub proof fn lemma_mult(a: CXCircuit16, b: CXCircuit16)
    ensures
        a.spec_mult_transpose(&b.spec_transpose())@ == spec_mult(a@, b@),
{
    CXCircuit16::lemma_of_rows(spec_transpose(b@));
    CXCircuit16::lemma_of_rows(spec_mult_transpose(a@, spec_transpose(b@)));
    lemma_mult_by_transpose(a@, b@);
}

/// The product of two invertible circuits is invertible, so none of its rows
/// is zero.
pub proof fn lemma_mult_invertible(a: CXCircuit16, b: CXCircuit16)
    requires
        a.spec_invertible(),
        b.spec_invertible(),
    ensures
        a.spec_mult_transpose(&b.spec_transpose()).spec_invertible(),
        a.spec_mult_transpose(&b.spec_transpose()).wf(),
{
    lemma_mult(a, b);
    crate::row_products::lemma_mult_independent(a@, b@);
    let product = a.spec_mult_transpose(&b.spec_transpose());
    assert forall|i: int| 0 <= i < 16 implies product@[i] != 0 by {
        lemma_independent_rows_differ(product@, i, if i == 0 { 1 } else { 0 });
    }
}

/// The transpose of the transpose of a circuit is the circuit.
pub proof fn lemma_transpose_involution(a: CXCircuit16)
    ensures
        a.spec_transpose().spec_transpose() == a,
{
    CXCircuit16::lemma_of_rows(spec_transpose(a@));
    lemma_transpose_twice(a@);
    CXCircuit16::lemma_of_rows(a@);
    a.lemma_is_of_rows();
}

/// A CX applied twice changes nothing.
pub proof fn lemma_cx_twice(a: CXCircuit16, ctrl: int, tgt: int)
    requires
        0 <= ctrl < 16,
        0 <= tgt < 16,
        ctrl != tgt,
    ensures
        a.spec_add_cx(ctrl, tgt).spec_add_cx(ctrl, tgt) == a,
{
    CXCircuit16::lemma_of_rows(spec_add_cx(a@, ctrl, tgt));
    crate::rows::lemma_add_cx_twice(a@, ctrl, tgt);
    a.lemma_is_of_rows();
}

impl AStarValue for CXCircuit16 {
    open spec fn qubits() -> nat {
        16
    }

    open spec fn key(&self) -> Seq<u16> {
        self@
    }

    open spec fn spec_dist(&self, other: &Self) -> nat {
        spec_differing(self@, other@, 16)
    }

    open spec fn spec_is_complete(&self, qb: u8, target: &Self) -> bool {
        self@[qb as int] == target@[qb as int]
    }

    open spec fn spec_cx(&self, ctrl: u8, tgt: u8) -> Self {
        CXCircuit16::of_rows(spec_add_cx(self@, ctrl as int, tgt as int))
    }

    open spec fn spec_can_cx(&self, ctrl: u8, tgt: u8) -> bool {
        self@[ctrl as int] != self@[tgt as int]
    }

    open spec fn spec_valid(&self) -> bool {
        self.spec_invertible()
    }

    proof fn lemma_cx_valid(&self, ctrl: u8, tgt: u8) {
        self.lemma_invertible(ctrl as int, tgt as int);
    }

    open spec fn spec_merge(&self, other: &Self, used: Set<u8>) -> Self {
        CXCircuit16::of_rows(spec_merge_rows(self@, other@, used))
    }

    proof fn lemma_key_injective(&self, other: &Self) {
        self.lemma_view_injective(other);
    }

    proof fn lemma_key_rows(&self, other: &Self, ctrl: u8, tgt: u8, used: Set<u8>) {
        CXCircuit16::lemma_of_rows(spec_add_cx(self@, ctrl as int, tgt as int));
        CXCircuit16::lemma_of_rows(spec_merge_rows(self@, other@, used));
    }

    fn encode(&self) -> (k: Vec<u16>) {
        let mut k: Vec<u16> = Vec::new();
        let mut i: usize = 0;
        while i < 16
            invariant
                i <= 16,
                k@.len() == i,
                forall|j: int| 0 <= j < i ==> k@[j] == self@[j],
            decreases 16 - i,
        {
            k.push(self.matrix[i]);
            i = i + 1;
        }
        assert(k@ =~= self@);
        k
    }

    fn dist(&self, other: &Self) -> (d: usize) {
        differing_rows(&self.matrix, &other.matrix)
    }

    fn is_complete(&self, qb: u8, target: &Self) -> (done: bool) {
        self.matrix[qb as usize] == target.matrix[qb as usize]
    }

    fn cx(&self, ctrl: u8, tgt: u8) -> (r: Self)
        ensures
            self.wf() ==> r.wf(),
            self.spec_invertible() ==> r.spec_invertible(),
    {
        let mut r = *self;
        r.add_cx(ctrl as usize, tgt as usize);
        proof {
            CXCircuit16::lemma_of_rows(spec_add_cx(self@, ctrl as int, tgt as int));
            r.lemma_view_injective(&self.spec_cx(ctrl, tgt));
        }
        r
    }

    fn merge(&self, other: &Self, used_qubits: &QubitSet) -> (r: Self)
        ensures
            self.wf() && other.wf() ==> r.wf(),
    {
        let mut r = *self;
        let mut qb: u8 = 0;
        while qb < 16
            invariant
                qb <= 16,
                forall|i: int|
                    0 <= i < qb ==> r@[i] == spec_merge_rows(self@, other@, used_qubits@)[i],
                forall|i: int| qb <= i < 16 ==> r@[i] == self@[i],
            decreases 16 - qb,
        {
            let ghost before = r@;
            if used_qubits.contains(qb) {
                r.matrix[qb as usize] = other.matrix[qb as usize];
                assert(r@ == before.update(qb as int, other@[qb as int]));
            }
            proof {
                let i = qb as int;
                assert(self@.len() == 16);
                assert(r@[i] == if used_qubits@.contains(qb) { other@[i] } else { self@[i] });
                assert forall|j: int| 0 <= j < qb implies r@[j] == before[j] by {}
                assert(i as u8 == qb);
                assert(spec_merge_rows(self@, other@, used_qubits@)[i] == if used_qubits@.contains(qb) {
                    other@[i]
                } else {
                    self@[i]
                });
            }
            qb = qb + 1;
        }
        proof {
            assert(r@ =~= spec_merge_rows(self@, other@, used_qubits@));
            CXCircuit16::lemma_of_rows(spec_merge_rows(self@, other@, used_qubits@));
            r.lemma_view_injective(&self.spec_merge(other, used_qubits@));
        }
        r
    }
}

} // verus!
