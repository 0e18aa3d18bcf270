//! States given by X stabilisers.

use vstd::prelude::*;
use vstd::string::StrSliceExecFns;
use crate::a_star::AStarValue;
use crate::qubit_set::QubitSet;
use crate::rows::{
    differing_rows, lemma_row_ext, row_of_flags, spec_add_cx, spec_differing, spec_merge_rows, spec_row,
};

verus! {

/// A stabiliser state on `N` qubits, at most 16, given by `N` X stabilisers.
///
/// The Z stabilisers that a state also has do not matter for the search of CX
/// circuits.
#[derive(Clone, Copy, Debug, Eq, Hash, Ord, PartialEq, PartialOrd)]
pub struct StabiliserState<const N: usize> {
    /// The X stabilisers: bit `j` of a row is set where the stabiliser has an X
    /// on qubit `j`.
    x_stabs: [u16; N],
}

/// Whether `line` describes a stabiliser: at most 16 letters, each `X` or `I`.
pub open spec fn spec_valid_line(line: Seq<char>) -> bool {
    line.len() <= 16 && forall|j: int| 0 <= j < line.len() ==> line[j] == 'X' || line[j] == 'I'
}

/// The row that `line` describes: bit `j` is set where letter `j` is `X`.
pub open spec fn spec_line_row(line: Seq<char>) -> u16 {
    spec_row(|j: int| 0 <= j < line.len() && line[j] == 'X', 16)
}

/// The rows that `lines` describe, `n` of them: row `i` by line `i`, and zero
/// where there is no such line.
pub open spec fn spec_from_strs(lines: Seq<Seq<char>>, n: nat) -> Seq<u16> {
    Seq::new(n, |i: int| if i < lines.len() { spec_line_row(lines[i]) } else { 0u16 })
}

/// The letters of the bits of `bits` below `n`: `pauli` for a bit that is set,
/// `I` for one that is not.
pub open spec fn spec_u16_as_str(bits: u16, pauli: char, n: nat) -> Seq<char> {
    Seq::new(n, |i: int| if crate::rows::spec_bit(bits, i) { pauli } else { 'I' })
}

/// `String::from_iter` of std, on the characters of a vector: the string of
/// these characters.
#[verifier::external_body]
fn string_of_chars(chars: &Vec<char>) -> (s: String)
    ensures
        s@ == chars@,
{
    String::from_iter(chars.iter())
}

/// The `N` lowest bits of `bits` as letters, the lowest first: `pauli` for a
/// bit that is set, `I` for one that is not.
pub fn u16_as_str<const N: usize>(bits: u16, pauli: char) -> (s: String)
    requires
        N <= 16,
    ensures
        s@ == spec_u16_as_str(bits, pauli, N as nat),
{
    let mut letters: Vec<char> = Vec::new();
    let mut i: usize = 0;
    while i < N
        invariant
            i <= N <= 16,
            letters@.len() == i,
            forall|k: int| 0 <= k < i ==> letters@[k] == spec_u16_as_str(bits, pauli, N as nat)[k],
        decreases N - i,
    {
        if (bits >> (i as u16)) & 1u16 == 1u16 {
            letters.push(pauli);
        } else {
            letters.push('I');
        }
        i = i + 1;
    }
    assert(letters@ =~= spec_u16_as_str(bits, pauli, N as nat));
    string_of_chars(&letters)
}

/// Whether `x` is the letter of an X; the other letter is `I`.
pub fn is_set(x: char) -> (set: bool)
    requires
        x == 'X' || x == 'I',
    ensures
        set == (x == 'X'),
{
    x == 'X'
}

/// Whether `line` describes a stabiliser: at most 16 letters, each `X` or `I`.
pub fn valid_line(line: &str) -> (valid: bool)
    ensures
        valid == spec_valid_line(line@),
{
    let n = line.unicode_len();
    if n > 16 {
        return false;
    }
    let mut j: usize = 0;
    while j < n
        invariant
            j <= n,
            n == line@.len(),
            forall|k: int| 0 <= k < j ==> line@[k] == 'X' || line@[k] == 'I',
        decreases n - j,
    {
        let c = line.get_char(j);
        if c != 'X' && c != 'I' {
            return false;
        }
        j = j + 1;
    }
    true
}

/// The row that `line` describes.
pub fn line_row(line: &str) -> (row: u16)
    requires
        spec_valid_line(line@),
    ensures
        row == spec_line_row(line@),
{
    let n = line.unicode_len();
    let mut flags: Vec<bool> = Vec::new();
    let mut j: usize = 0;
    while j < n
        invariant
            j <= n <= 16,
            n == line@.len(),
            spec_valid_line(line@),
            flags@.len() == j,
            forall|k: int| 0 <= k < j ==> flags@[k] == (line@[k] == 'X'),
        decreases n - j,
    {
        flags.push(is_set(line.get_char(j)));
        j = j + 1;
    }
    proof {
        lemma_row_ext(
            |j: int| 0 <= j < flags@.len() && flags@[j],
            |j: int| 0 <= j < line@.len() && line@[j] == 'X',
            16,
        );
    }
    row_of_flags(&flags)
}

impl<const N: usize> View for StabiliserState<N> {
    type V = Seq<u16>;

    closed spec fn view(&self) -> Seq<u16> {
        self.x_stabs@
    }
}

impl<const N: usize> StabiliserState<N> {
    /// The state with the rows `rows`.
    pub closed spec fn of_rows(rows: Seq<u16>) -> Self {
        choose|s: Self| s@ == rows
    }

    /// The array that has the first `k` of the rows `rows`, and beyond them the
    /// entries of `base`.
    pub open spec fn spec_filled(base: [u16; N], rows: Seq<u16>, k: nat) -> [u16; N]
        decreases k,
    {
        if k == 0 {
            base
        } else {
            vstd::array::spec_array_update(Self::spec_filled(base, rows, (k - 1) as nat), k - 1, rows[k - 1])
        }
    }

    /// The array filled with `k` rows has these rows.
    pub proof fn lemma_filled(base: [u16; N], rows: Seq<u16>, k: nat)
        requires
            k <= N,
        ensures
            Self::spec_filled(base, rows, k)@.len() == N,
            forall|i: int| 0 <= i < k ==> Self::spec_filled(base, rows, k)@[i] == rows[i],
        decreases k,
    {
        broadcast use vstd::array::group_array_axioms;

        if k > 0 {
            Self::lemma_filled(base, rows, (k - 1) as nat);
        }
    }

    /// `N` rows make a state, and it has those rows.
    pub proof fn lemma_of_rows(rows: Seq<u16>)
        requires
            rows.len() == N,
        ensures
            Self::of_rows(rows)@ == rows,
    {
        let base = vstd::array::spec_array_fill_for_copy_type::<u16, N>(0u16);
        Self::lemma_filled(base, rows, N as nat);
        let s = StabiliserState::<N> { x_stabs: Self::spec_filled(base, rows, N as nat) };
        assert(s@ =~= rows);
    }

    /// A state has `N` rows.
    pub proof fn lemma_len(&self)
        ensures
            self@.len() == N,
    {
    }

    /// States with the same rows are the same state.
    pub proof fn lemma_view_injective(&self, other: &Self)
        requires
            self@ == other@,
        ensures
            *self == *other,
    {
        assert(self.x_stabs =~= other.x_stabs);
    }

    /// A state is the state of its rows.
    pub proof fn lemma_is_of_rows(&self)
        ensures
            *self == Self::of_rows(self@),
    {
        self.lemma_view_injective(&Self::of_rows(self@));
    }

    /// The state that `x_stabs_str` describes: row `i` by line `i`, with an X
    /// on qubit `j` where letter `j` is `X`; rows without a line have no X, and
    /// lines beyond row `N` are left aside.
    pub fn from_strs(x_stabs_str: &Vec<&str>) -> (s: Self)
        requires
            N <= 16,
            forall|i: int| 0 <= i < x_stabs_str@.len() && i < N ==> spec_valid_line(#[trigger] x_stabs_str@[i]@),
        ensures
            s@ == spec_from_strs(x_stabs_str@.map_values(|line: &str| line@), N as nat),
    {
        let mut x_stabs: [u16; N] = [0u16; N];
        let ghost lines = x_stabs_str@.map_values(|line: &str| line@);
        let mut i: usize = 0;
        while i < N
            invariant
                i <= N,
                lines == x_stabs_str@.map_values(|line: &str| line@),
                forall|k: int| 0 <= k < x_stabs_str@.len() && k < N ==> spec_valid_line(#[trigger] x_stabs_str@[k]@),
                forall|k: int| 0 <= k < i ==> x_stabs@[k] == spec_from_strs(lines, N as nat)[k],
                forall|k: int| i <= k < N ==> x_stabs@[k] == 0,
            decreases N - i,
        {
            if i < x_stabs_str.len() {
                x_stabs[i] = line_row(x_stabs_str[i]);
            }
            i = i + 1;
        }
        let s = StabiliserState { x_stabs };
        assert(s@ =~= spec_from_strs(lines, N as nat));
        s
    }

    /// The state with the rows given.
    pub fn from_rows(x_stabs: [u16; N]) -> (s: Self)
        ensures
            s@ == x_stabs@,
    {
        StabiliserState { x_stabs }
    }

    /// The lines that describe the state: for each row a line of `N` letters,
    /// `X` for a qubit that the stabiliser acts on and `I` for one that it does
    /// not.
    pub fn to_strs(&self) -> (lines: Vec<String>)
        requires
            N <= 16,
        ensures
            lines@.len() == N,
            forall|i: int| 0 <= i < N ==> (#[trigger] lines@[i])@ == spec_u16_as_str(self@[i], 'X', N as nat),
    {
        let mut lines: Vec<String> = Vec::new();
        let mut i: usize = 0;
        while i < N
            invariant
                i <= N <= 16,
                lines@.len() == i,
                forall|k: int| 0 <= k < i ==> (#[trigger] lines@[k])@ == spec_u16_as_str(self@[k], 'X', N as nat),
            decreases N - i,
        {
            lines.push(u16_as_str::<N>(self.x_stabs[i], 'X'));
            i = i + 1;
        }
        lines
    }

    /// The rows of the state.
    pub fn rows(&self) -> (rows: [u16; N])
        ensures
            rows@ == self@,
    {
        self.x_stabs
    }
}

impl<const N: usize> AStarValue for StabiliserState<N> {
    open spec fn qubits() -> nat {
        N as nat
    }

    open spec fn key(&self) -> Seq<u16> {
        self@
    }

    open spec fn spec_dist(&self, other: &Self) -> nat {
        spec_differing(self@, other@, N as nat)
    }

    open spec fn spec_is_complete(&self, qb: u8, target: &Self) -> bool {
        self@[qb as int] == target@[qb as int]
    }

    open spec fn spec_cx(&self, ctrl: u8, tgt: u8) -> Self {
        Self::of_rows(spec_add_cx(self@, ctrl as int, tgt as int))
    }

    open spec fn spec_can_cx(&self, ctrl: u8, tgt: u8) -> bool {
        true
    }

    open spec fn spec_valid(&self) -> bool {
        true
    }

    proof fn lemma_cx_valid(&self, ctrl: u8, tgt: u8) {
    }

    open spec fn spec_merge(&self, other: &Self, used: Set<u8>) -> Self {
        Self::of_rows(spec_merge_rows(self@, other@, used))
    }

    proof fn lemma_key_injective(&self, other: &Self) {
        self.lemma_view_injective(other);
    }

    proof fn lemma_key_rows(&self, other: &Self, ctrl: u8, tgt: u8, used: Set<u8>) {
        Self::lemma_of_rows(spec_add_cx(self@, ctrl as int, tgt as int));
        Self::lemma_of_rows(spec_merge_rows(self@, other@, used));
    }

    fn encode(&self) -> (k: Vec<u16>) {
        let mut k: Vec<u16> = Vec::new();
        let mut i: usize = 0;
        while i < N
            invariant
                i <= N,
                k@.len() == i,
                forall|j: int| 0 <= j < i ==> k@[j] == self@[j],
            decreases N - i,
        {
            k.push(self.x_stabs[i]);
            i = i + 1;
        }
        assert(k@ =~= self@);
        k
    }

    fn dist(&self, other: &Self) -> (d: usize) {
        differing_rows(&self.x_stabs, &other.x_stabs)
    }

    fn is_complete(&self, qb: u8, target: &Self) -> (done: bool) {
        self.x_stabs[qb as usize] == target.x_stabs[qb as usize]
    }

    fn cx(&self, ctrl: u8, tgt: u8) -> (r: Self)
        ensures
            r@ == spec_add_cx(self@, ctrl as int, tgt as int),
    {
        let mut r = *self;
        let sum = r.x_stabs[tgt as usize] ^ self.x_stabs[ctrl as usize];
        r.x_stabs[tgt as usize] = sum;
        proof {
            assert(r@ =~= spec_add_cx(self@, ctrl as int, tgt as int));
            r.lemma_is_of_rows();
            assert(r == self.spec_cx(ctrl, tgt));
        }
        r
    }

    fn merge(&self, other: &Self, used_qubits: &QubitSet) -> (r: Self)
        ensures
            r@ == spec_merge_rows(self@, other@, used_qubits@),
    {
        let mut r = *self;
        let mut qb: usize = 0;
        while qb < N
            invariant
                qb <= N,
                forall|q: u8| used_qubits@.contains(q) ==> q < Self::qubits(),
                forall|i: int| 0 <= i < qb ==> r@[i] == spec_merge_rows(self@, other@, used_qubits@)[i],
                forall|i: int| qb <= i < N ==> r@[i] == self@[i],
            decreases N - qb,
        {
            let ghost before = r@;
            if qb < 256 && used_qubits.contains(qb as u8) {
                r.x_stabs[qb] = other.x_stabs[qb];
                assert(r@ == before.update(qb as int, other@[qb as int]));
            }
            proof {
                let i = qb as int;
                assert(self@.len() == N);
                if i < 256 {
                    assert(i as u8 == qb);
                }
                assert forall|j: int| 0 <= j < qb implies r@[j] == before[j] by {}
            }
            qb = qb + 1;
        }
        proof {
            assert(r@ =~= spec_merge_rows(self@, other@, used_qubits@));
            r.lemma_is_of_rows();
            assert(r == self.spec_merge(other, used_qubits@));
        }
        r
    }
}

} // verus!
