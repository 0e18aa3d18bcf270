//! The text formats: lists of gates, one `ctrl tgt` a line, and stabiliser
//! states, one row of the letters `X` and `I` a line.

use vstd::prelude::*;
use crate::cx::CX;
use crate::cx_circuit::{CXCircuit, CXCircuit16};
use crate::rows::{lemma_row_ext, row_of_flags, spec_row};
use crate::stab_state::StabiliserState;

verus! {

/// Why a text was not accepted.
#[derive(Clone, Copy, Debug, PartialEq, Eq, Structural)]
pub enum ParseError {
    /// The line does not hold exactly two numbers.
    Malformed { line: usize },
    /// The line names a qubit above 15.
    QubitOutOfRange { line: usize },
    /// The line names the same qubit twice.
    SameQubit { line: usize },
    /// The line holds another letter than `X` and `I`, or more than 16 letters.
    InvalidStabiliser { line: usize },
}

/// Whether `b` is a blank: a space, a tab or a carriage return.
pub open spec fn spec_is_blank(b: u8) -> bool {
    b == 32 || b == 9 || b == 13
}

/// Whether `b` is a decimal digit.
pub open spec fn spec_is_digit(b: u8) -> bool {
    48 <= b <= 57
}

/// The first position from `i` on that holds no blank.
pub open spec fn spec_skip_blanks(s: Seq<u8>, i: int) -> int
    decreases s.len() - i,
{
    if 0 <= i < s.len() && spec_is_blank(s[i]) {
        spec_skip_blanks(s, i + 1)
    } else {
        i
    }
}

/// The first position from `i` on that holds no digit.
pub open spec fn spec_skip_digits(s: Seq<u8>, i: int) -> int
    decreases s.len() - i,
{
    if 0 <= i < s.len() && spec_is_digit(s[i]) {
        spec_skip_digits(s, i + 1)
    } else {
        i
    }
}

/// The first position from `i` on that holds a line feed, or the end.
pub open spec fn spec_line_end(s: Seq<u8>, i: int) -> int
    decreases s.len() - i,
{
    if 0 <= i < s.len() && s[i] != 10 {
        spec_line_end(s, i + 1)
    } else {
        i
    }
}

/// The number that the digits from `i` to `j` write.
pub open spec fn spec_value(s: Seq<u8>, i: int, j: int) -> nat
    decreases j - i,
{
    if j <= i {
        0
    } else {
        spec_value(s, i, j - 1) * 10 + (s[j - 1] - 48) as nat
    }
}

/// The two numbers of a line: blanks, digits, at least one blank, digits,
/// blanks, and nothing else. Nothing for any other line, and for numbers beyond
/// the machine's integers.
pub open spec fn spec_parse_line(s: Seq<u8>) -> Option<(usize, usize)> {
    let a0 = spec_skip_blanks(s, 0);
    let a1 = spec_skip_digits(s, a0);
    let b0 = spec_skip_blanks(s, a1);
    let b1 = spec_skip_digits(s, b0);
    let end = spec_skip_blanks(s, b1);
    if a1 > a0 && b0 > a1 && b1 > b0 && end == s.len() && spec_value(s, a0, a1) <= usize::MAX && spec_value(
        s,
        b0,
        b1,
    ) <= usize::MAX {
        Some((spec_value(s, a0, a1) as usize, spec_value(s, b0, b1) as usize))
    } else {
        None
    }
}

/// The pairs of the lines of `s` from position `p` on, after the pairs `acc` of
/// the `acc.len()` lines before; the first line that does not hold two numbers
/// is the error.
pub open spec fn spec_parse_file(s: Seq<u8>, p: int, acc: Seq<(usize, usize)>) -> Result<
    Seq<(usize, usize)>,
    ParseError,
>
    decreases s.len() - p,
{
    if p < 0 || p >= s.len() {
        Ok(acc)
    } else {
        let end = spec_line_end(s, p);
        match spec_parse_line(s.subrange(p, end)) {
            Some(pair) => if p <= end < s.len() {
                spec_parse_file(s, end + 1, acc.push(pair))
            } else {
                Ok(acc.push(pair))
            },
            None => Err(ParseError::Malformed { line: acc.len() as usize }),
        }
    }
}

/// A number does not shrink as digits are added.
proof fn lemma_value_grows(s: Seq<u8>, i: int, k: int, j: int)
    requires
        i <= k <= j,
        forall|m: int| i <= m < j ==> spec_is_digit(#[trigger] s[m]),
    ensures
        spec_value(s, i, k) <= spec_value(s, i, j),
    decreases j - k,
{
    if k < j {
        lemma_value_grows(s, i, k, j - 1);
        assert(spec_is_digit(s[j - 1]));
    }
}

/// The positions from `i` to where the scan of digits stops hold digits.
proof fn lemma_digits(s: Seq<u8>, i: int)
    requires
        0 <= i <= s.len(),
    ensures
        forall|m: int| i <= m < spec_skip_digits(s, i) ==> spec_is_digit(#[trigger] s[m]),
    decreases s.len() - i,
{
    if i < s.len() && spec_is_digit(s[i]) {
        lemma_digits(s, i + 1);
    }
}

/// The first position from `i` on that holds no blank.
fn skip_blanks(line: &Vec<u8>, i: usize) -> (j: usize)
    requires
        i <= line@.len(),
    ensures
        j == spec_skip_blanks(line@, i as int),
        i <= j <= line@.len(),
{
    let mut j = i;
    while j < line.len() && (line[j] == 32 || line[j] == 9 || line[j] == 13)
        invariant
            i <= j <= line@.len(),
            spec_skip_blanks(line@, j as int) == spec_skip_blanks(line@, i as int),
        decreases line@.len() - j,
    {
        j = j + 1;
    }
    j
}

/// The first position from `i` on that holds no digit.
fn skip_digits(line: &Vec<u8>, i: usize) -> (j: usize)
    requires
        i <= line@.len(),
    ensures
        j == spec_skip_digits(line@, i as int),
        i <= j <= line@.len(),
{
    let mut j = i;
    while j < line.len() && 48 <= line[j] && line[j] <= 57
        invariant
            i <= j <= line@.len(),
            spec_skip_digits(line@, j as int) == spec_skip_digits(line@, i as int),
        decreases line@.len() - j,
    {
        j = j + 1;
    }
    j
}

/// The number that the digits from `i` to `j` write, if the machine's integers hold it.
fn read_number(line: &Vec<u8>, i: usize, j: usize) -> (n: Option<usize>)
    requires
        i <= j <= line@.len(),
        forall|m: int| i <= m < j ==> spec_is_digit(#[trigger] line@[m]),
    ensures
        n == if spec_value(line@, i as int, j as int) <= usize::MAX {
            Some(spec_value(line@, i as int, j as int) as usize)
        } else {
            None
        },
{
    let mut value: usize = 0;
    let mut k = i;
    while k < j
        invariant
            i <= k <= j <= line@.len(),
            forall|m: int| i <= m < j ==> spec_is_digit(#[trigger] line@[m]),
            value == spec_value(line@, i as int, k as int),
        decreases j - k,
    {
        assert(spec_is_digit(line@[k as int]));
        let digit = (line[k] - 48) as usize;
        if value > (usize::MAX - digit) / 10 {
            proof {
                assert(value * 10 + digit > usize::MAX);
                lemma_value_grows(line@, i as int, k as int + 1, j as int);
            }
            return None;
        }
        value = value * 10 + digit;
        k = k + 1;
    }
    Some(value)
}

/// The two numbers of a line, if it holds two numbers and nothing else.
pub fn parse_line(line: &Vec<u8>) -> (pair: Option<(usize, usize)>)
    ensures
        pair == spec_parse_line(line@),
{
    let a0 = skip_blanks(line, 0);
    let a1 = skip_digits(line, a0);
    let b0 = skip_blanks(line, a1);
    let b1 = skip_digits(line, b0);
    let end = skip_blanks(line, b1);
    if a1 == a0 || b0 == a1 || b1 == b0 || end != line.len() {
        return None;
    }
    proof {
        lemma_digits(line@, a0 as int);
        lemma_digits(line@, b0 as int);
    }
    let a = match read_number(line, a0, a1) {
        Some(a) => a,
        None => {
            return None;
        },
    };
    let b = match read_number(line, b0, b1) {
        Some(b) => b,
        None => {
            return None;
        },
    };
    Some((a, b))
}

/// The bytes of `content` from `from` to `to`.
fn copy_range(content: &Vec<u8>, from: usize, to: usize) -> (line: Vec<u8>)
    requires
        from <= to <= content@.len(),
    ensures
        line@ == content@.subrange(from as int, to as int),
{
    let mut line: Vec<u8> = Vec::new();
    let mut k = from;
    while k < to
        invariant
            from <= k <= to <= content@.len(),
            line@ == content@.subrange(from as int, k as int),
        decreases to - k,
    {
        line.push(content[k]);
        assert(line@ =~= content@.subrange(from as int, k as int + 1));
        k = k + 1;
    }
    assert(line@ =~= content@.subrange(from as int, to as int));
    line
}

/// The first position from `i` on that holds a line feed, or the end.
fn line_end(content: &Vec<u8>, i: usize) -> (j: usize)
    requires
        i <= content@.len(),
    ensures
        j == spec_line_end(content@, i as int),
        i <= j <= content@.len(),
{
    let mut j = i;
    while j < content.len() && content[j] != 10
        invariant
            i <= j <= content@.len(),
            spec_line_end(content@, j as int) == spec_line_end(content@, i as int),
        decreases content@.len() - j,
    {
        j = j + 1;
    }
    j
}

/// The pairs of numbers that the lines of `content` hold, one pair a line.
///
/// A line that holds anything but two numbers is an error, an empty line too.
#[verifier::loop_isolation(false)]
pub fn parse_file(content: &Vec<u8>) -> (r: Result<Vec<(usize, usize)>, ParseError>)
    ensures
        match spec_parse_file(content@, 0, Seq::empty()) {
            Ok(pairs) => r is Ok && r->Ok_0@ == pairs,
            Err(e) => r == Err::<Vec<(usize, usize)>, ParseError>(e),
        },
{
    let mut res: Vec<(usize, usize)> = Vec::new();
    let mut p: usize = 0;
    let ghost total = spec_parse_file(content@, 0, Seq::empty());
    assert(res@ =~= Seq::empty());
    while p < content.len()
        invariant
            spec_parse_file(content@, p as int, res@) == total,
        decreases content@.len() - p,
    {
        let end = line_end(content, p);
        let line = copy_range(content, p, end);
        match parse_line(&line) {
            Some(pair) => {
                res.push(pair);
            },
            None => {
                return Err(ParseError::Malformed { line: res.len() });
            },
        }
        if end == content.len() {
            return Ok(res);
        }
        p = end + 1;
    }
    Ok(res)
}

/// The first reason, from pair `k` on, for which a pair is no gate: a qubit
/// above 15, or the same qubit twice.
pub open spec fn spec_check_pairs(pairs: Seq<(usize, usize)>, k: int) -> Option<ParseError>
    decreases pairs.len() - k,
{
    if k < 0 || k >= pairs.len() {
        None
    } else if pairs[k].0 >= 16 || pairs[k].1 >= 16 {
        Some(ParseError::QubitOutOfRange { line: k as usize })
    } else if pairs[k].0 == pairs[k].1 {
        Some(ParseError::SameQubit { line: k as usize })
    } else {
        spec_check_pairs(pairs, k + 1)
    }
}

/// Pairs that pass the check name two different qubits below 16.
pub proof fn lemma_check_pairs(pairs: Seq<(usize, usize)>, k: int)
    requires
        0 <= k,
        spec_check_pairs(pairs, k) is None,
    ensures
        forall|j: int| k <= j < pairs.len() ==> crate::synth::spec_valid_pair(#[trigger] pairs[j]),
    decreases pairs.len() - k,
{
    if k < pairs.len() {
        lemma_check_pairs(pairs, k + 1);
    }
}

/// Tells the first pair that is no gate, if there is one.
pub fn check_pairs(pairs: &Vec<(usize, usize)>) -> (r: Option<ParseError>)
    ensures
        r == spec_check_pairs(pairs@, 0),
{
    let mut k: usize = 0;
    while k < pairs.len()
        invariant
            k <= pairs@.len(),
            spec_check_pairs(pairs@, k as int) == spec_check_pairs(pairs@, 0),
        decreases pairs@.len() - k,
    {
        if pairs[k].0 >= 16 || pairs[k].1 >= 16 {
            return Some(ParseError::QubitOutOfRange { line: k });
        }
        if pairs[k].0 == pairs[k].1 {
            return Some(ParseError::SameQubit { line: k });
        }
        k = k + 1;
    }
    None
}

/// Parses a circuit: the gates of the lines of `content`, applied in their
/// order to the identity.
pub fn parse_cx_circuit(content: &Vec<u8>) -> (r: Result<CXCircuit16, ParseError>)
    ensures
        r matches Ok(c) ==> c.spec_invertible(),
        match spec_parse_file(content@, 0, Seq::empty()) {
            Ok(pairs) => match spec_check_pairs(pairs, 0) {
                None => r == Ok::<CXCircuit16, ParseError>(CXCircuit16::spec_from_cxs(pairs)),
                Some(e) => r == Err::<CXCircuit16, ParseError>(e),
            },
            Err(e) => r == Err::<CXCircuit16, ParseError>(e),
        },
{
    let all_cxs = match parse_file(content) {
        Ok(pairs) => pairs,
        Err(e) => {
            return Err(e);
        },
    };
    match check_pairs(&all_cxs) {
        Some(e) => Err(e),
        None => {
            proof {
                lemma_check_pairs(all_cxs@, 0);
                crate::cx_circuit::lemma_cxs_can_follow(all_cxs@);
                crate::cx_circuit::lemma_cxs_invertible(all_cxs@);
            }
            Ok(CXCircuit16::from_cxs(&all_cxs))
        },
    }
}

/// Each pair, followed by the pair the other way round.
pub open spec fn spec_with_reverses(pairs: Seq<(usize, usize)>) -> Seq<(usize, usize)> {
    Seq::new(
        2 * pairs.len(),
        |i: int|
            if i % 2 == 0 {
                pairs[i / 2]
            } else {
                (pairs[i / 2].1, pairs[i / 2].0)
            },
    )
}

/// Parses a list of moves: each line gives a gate and its reverse.
///
/// With the pairs come the matrices by which the searches from both ends move:
/// the transposes of the circuits of the single gates.
pub fn parse_moves(content: &Vec<u8>) -> (r: Result<(Vec<(usize, usize)>, Vec<CXCircuit16>), ParseError>)
    ensures
        match spec_parse_file(content@, 0, Seq::empty()) {
            Ok(pairs) => match spec_check_pairs(pairs, 0) {
                None => r matches Ok(found) && found.0@ == spec_with_reverses(pairs) && found.1@
                    == crate::synth::spec_moves_of_pairs(found.0@) && (forall|k: int|
                    0 <= k < found.0@.len() ==> crate::synth::spec_valid_pair(#[trigger] found.0@[k])),
                Some(e) => r matches Err(f) && f == e,
            },
            Err(e) => r matches Err(f) && f == e,
        },
{
    let pairs = match parse_file(content) {
        Ok(pairs) => pairs,
        Err(e) => {
            return Err(e);
        },
    };
    match check_pairs(&pairs) {
        Some(e) => Err(e),
        None => {
            proof {
                lemma_check_pairs(pairs@, 0);
            }
            let mut moves_inds: Vec<(usize, usize)> = Vec::new();
            let mut k: usize = 0;
            while k < pairs.len()
                invariant
                    k <= pairs@.len(),
                    moves_inds@.len() == 2 * k,
                    forall|j: int| 0 <= j < pairs@.len() ==> crate::synth::spec_valid_pair(#[trigger] pairs@[j]),
                    forall|i: int| 0 <= i < 2 * k ==> moves_inds@[i] == spec_with_reverses(pairs@)[i],
                decreases pairs@.len() - k,
            {
                let (a, b) = pairs[k];
                moves_inds.push((a, b));
                moves_inds.push((b, a));
                k = k + 1;
            }
            proof {
                assert(moves_inds@ =~= spec_with_reverses(pairs@));
                assert forall|i: int| 0 <= i < moves_inds@.len() implies crate::synth::spec_valid_pair(
                    #[trigger] moves_inds@[i],
                ) by {
                    assert(crate::synth::spec_valid_pair(pairs@[i / 2]));
                }
            }
            let moves = crate::synth::moves_of_pairs(&moves_inds);
            Ok((moves_inds, moves))
        },
    }
}

/// The decimal digits of `n`.
pub open spec fn spec_decimal(n: u8) -> Seq<u8> {
    if n < 10 {
        seq![(48 + n) as u8]
    } else if n < 100 {
        seq![(48 + n / 10) as u8, (48 + n % 10) as u8]
    } else {
        seq![(48 + n / 100) as u8, (48 + (n / 10) % 10) as u8, (48 + n % 10) as u8]
    }
}

/// The line of a gate: control, a space, target, a line feed.
pub open spec fn spec_gate_line(gate: CX) -> Seq<u8> {
    spec_decimal(gate.ctrl) + seq![32u8] + spec_decimal(gate.tgt) + seq![10u8]
}

/// The text of a solution: the lines of its gates, in their order.
pub open spec fn spec_solution_text(solution: Seq<CX>) -> Seq<u8>
    decreases solution.len(),
{
    if solution.len() == 0 {
        Seq::empty()
    } else {
        spec_solution_text(solution.drop_last()) + spec_gate_line(solution.last())
    }
}

/// Appends the decimal digits of `n` to `text`.
fn push_decimal(text: &mut Vec<u8>, n: u8)
    ensures
        final(text)@ == old(text)@ + spec_decimal(n),
{
    if n >= 100 {
        text.push(48 + n / 100);
    }
    if n >= 10 {
        text.push(48 + (n / 10) % 10);
    }
    text.push(48 + n % 10);
    assert(text@ =~= old(text)@ + spec_decimal(n));
}

/// The text of a solution: one line a gate, `ctrl tgt`, in the order in which
/// the gates are applied.
pub fn save_solution(solution: &Vec<CX>) -> (text: Vec<u8>)
    ensures
        text@ == spec_solution_text(solution@),
{
    let mut text: Vec<u8> = Vec::new();
    let mut k: usize = 0;
    assert(text@ =~= spec_solution_text(solution@.take(0)));
    while k < solution.len()
        invariant
            k <= solution@.len(),
            text@ == spec_solution_text(solution@.take(k as int)),
        decreases solution@.len() - k,
    {
        let ghost before = text@;
        let gate = solution[k];
        push_decimal(&mut text, gate.ctrl);
        text.push(32);
        push_decimal(&mut text, gate.tgt);
        text.push(10);
        proof {
            let next = solution@.take(k as int + 1);
            assert(next.drop_last() =~= solution@.take(k as int));
            assert(next.last() == gate);
            assert(text@ =~= before + spec_gate_line(gate));
        }
        k = k + 1;
    }
    assert(solution@.take(solution@.len() as int) =~= solution@);
    text
}

/// Whether `line` describes a stabiliser: at most 16 letters, each `X` or `I`.
pub open spec fn spec_valid_letters(line: Seq<u8>) -> bool {
    line.len() <= 16 && forall|j: int| 0 <= j < line.len() ==> line[j] == 88 || line[j] == 73
}

/// The row that the letters describe: bit `j` is set where letter `j` is `X`.
pub open spec fn spec_letters_row(line: Seq<u8>) -> u16 {
    spec_row(|j: int| 0 <= j < line.len() && line[j] == 88, 16)
}

/// The line without the carriage return at its end, if it has one.
pub open spec fn spec_chomp(line: Seq<u8>) -> Seq<u8> {
    if line.len() > 0 && line.last() == 13 {
        line.drop_last()
    } else {
        line
    }
}

/// The rows that the lines of `s` from position `p` on describe, after the rows
/// `acc`. No more than 16 lines are read.
pub open spec fn spec_parse_stabiliser(s: Seq<u8>, p: int, acc: Seq<u16>) -> Result<Seq<u16>, ParseError>
    decreases s.len() - p,
{
    if p < 0 || p >= s.len() || acc.len() >= 16 {
        Ok(acc)
    } else {
        let end = spec_line_end(s, p);
        let line = spec_chomp(s.subrange(p, end));
        if !spec_valid_letters(line) {
            Err(ParseError::InvalidStabiliser { line: acc.len() as usize })
        } else if p <= end < s.len() {
            spec_parse_stabiliser(s, end + 1, acc.push(spec_letters_row(line)))
        } else {
            Ok(acc.push(spec_letters_row(line)))
        }
    }
}

/// The sixteen rows that begin with `rows` and go on with rows without an X.
pub open spec fn spec_pad_rows(rows: Seq<u16>) -> Seq<u16> {
    Seq::new(16, |i: int| if i < rows.len() { rows[i] } else { 0u16 })
}

/// The row that the letters of `line` describe, if they describe one.
pub fn letters_row(line: &Vec<u8>) -> (row: Option<u16>)
    ensures
        row == if spec_valid_letters(line@) {
            Some(spec_letters_row(line@))
        } else {
            None
        },
{
    if line.len() > 16 {
        return None;
    }
    let mut flags: Vec<bool> = Vec::new();
    let mut j: usize = 0;
    while j < line.len()
        invariant
            j <= line@.len() <= 16,
            flags@.len() == j,
            forall|k: int| 0 <= k < j ==> line@[k] == 88 || line@[k] == 73,
            forall|k: int| 0 <= k < j ==> flags@[k] == (line@[k] == 88),
        decreases line@.len() - j,
    {
        if line[j] != 88 && line[j] != 73 {
            return None;
        }
        flags.push(line[j] == 88);
        j = j + 1;
    }
    proof {
        lemma_row_ext(
            |j: int| 0 <= j < flags@.len() && flags@[j],
            |j: int| 0 <= j < line@.len() && line@[j] == 88,
            16,
        );
    }
    Some(row_of_flags(&flags))
}

/// Parses a stabiliser state: one row a line, an `X` for each qubit that the
/// stabiliser acts on and an `I` for each other. Rows without a line have no X.
#[verifier::loop_isolation(false)]
pub fn parse_stabiliser(content: &Vec<u8>) -> (r: Result<StabiliserState<16>, ParseError>)
    ensures
        match spec_parse_stabiliser(content@, 0, Seq::empty()) {
            Ok(rows) => r matches Ok(state) && state@ == spec_pad_rows(rows),
            Err(e) => r matches Err(f) && f == e,
        },
{
    let mut rows: [u16; 16] = [0u16; 16];
    let mut n: usize = 0;
    let mut p: usize = 0;
    let ghost total = spec_parse_stabiliser(content@, 0, Seq::empty());
    let ghost mut acc: Seq<u16> = Seq::empty();
    while p < content.len() && n < 16
        invariant
            n <= 16,
            acc.len() == n,
            forall|i: int| 0 <= i < n ==> rows@[i] == acc[i],
            forall|i: int| n <= i < 16 ==> rows@[i] == 0,
            spec_parse_stabiliser(content@, p as int, acc) == total,
        decreases content@.len() - p,
    {
        let end = line_end(content, p);
        let mut line = copy_range(content, p, end);
        if line.len() > 0 && line[line.len() - 1] == 13 {
            line.pop();
        }
        assert(line@ =~= spec_chomp(content@.subrange(p as int, end as int)));
        match letters_row(&line) {
            Some(row) => {
                rows[n] = row;
                proof {
                    acc = acc.push(row);
                }
                n = n + 1;
            },
            None => {
                return Err(ParseError::InvalidStabiliser { line: n });
            },
        }
        if end == content.len() {
            let state = StabiliserState::from_rows(rows);
            assert(state@ =~= spec_pad_rows(acc));
            return Ok(state);
        }
        p = end + 1;
    }
    let state = StabiliserState::from_rows(rows);
    assert(state@ =~= spec_pad_rows(acc));
    Ok(state)
}

} // verus!
