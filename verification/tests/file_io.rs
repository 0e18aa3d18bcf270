use cx_synth::cx::CX;
use cx_synth::cx_circuit::{CXCircuit, CXCircuit16};
use cx_synth::file_io::{
    check_pairs, letters_row, parse_cx_circuit, parse_file, parse_line, parse_moves, parse_stabiliser, save_solution,
    ParseError,
};

fn bytes(text: &str) -> Vec<u8> {
    text.as_bytes().to_vec()
}

#[test]
fn parse_line_reads_two_numbers() {
    assert_eq!(parse_line(&bytes("0 1")), Some((0, 1)));
    assert_eq!(parse_line(&bytes("  12\t 007 \r")), Some((12, 7)));
    assert_eq!(parse_line(&bytes("15 0")), Some((15, 0)));
    assert_eq!(parse_line(&bytes("18446744073709551615 1")), Some((usize::MAX, 1)));
}

#[test]
fn parse_line_refuses_anything_else() {
    assert_eq!(parse_line(&bytes("")), None);
    assert_eq!(parse_line(&bytes("   ")), None);
    assert_eq!(parse_line(&bytes("1")), None);
    assert_eq!(parse_line(&bytes("1 2 3")), None);
    assert_eq!(parse_line(&bytes("1,2")), None);
    assert_eq!(parse_line(&bytes("a b")), None);
    assert_eq!(parse_line(&bytes("-1 2")), None);
    assert_eq!(parse_line(&bytes("1 2x")), None);
    assert_eq!(parse_line(&bytes("18446744073709551616 1")), None);
    assert_eq!(parse_line(&bytes("1 99999999999999999999999")), None);
}

#[test]
fn parse_file_reads_a_pair_a_line() {
    assert_eq!(parse_file(&bytes("")), Ok(vec![]));
    assert_eq!(parse_file(&bytes("0 1\n2 3\n")), Ok(vec![(0, 1), (2, 3)]));
    assert_eq!(parse_file(&bytes("0 1\r\n2 3")), Ok(vec![(0, 1), (2, 3)]));
    assert_eq!(parse_file(&bytes("0 1\n\n2 3\n")), Err(ParseError::Malformed { line: 1 }));
    assert_eq!(parse_file(&bytes("0 1 2\n")), Err(ParseError::Malformed { line: 0 }));
    assert_eq!(parse_file(&bytes("0 1\n2 3\n4\n")), Err(ParseError::Malformed { line: 2 }));
}

#[test]
fn check_pairs_names_the_first_bad_pair() {
    assert_eq!(check_pairs(&vec![(0, 1), (15, 14)]), None);
    assert_eq!(check_pairs(&vec![(0, 1), (16, 2)]), Some(ParseError::QubitOutOfRange { line: 1 }));
    assert_eq!(check_pairs(&vec![(0, 16)]), Some(ParseError::QubitOutOfRange { line: 0 }));
    assert_eq!(check_pairs(&vec![(0, 1), (1, 2), (3, 3)]), Some(ParseError::SameQubit { line: 2 }));
}

#[test]
fn parse_cx_circuit_applies_the_gates_in_order() {
    let mut expected = CXCircuit16::new();
    expected.add_cx(0, 2);
    expected.add_cx(2, 0);
    assert_eq!(parse_cx_circuit(&bytes("0 2\n2 0\n")), Ok(expected));
    assert_eq!(parse_cx_circuit(&bytes("")), Ok(CXCircuit16::new()));
    assert_eq!(parse_cx_circuit(&bytes("0 2\n2 16\n")), Err(ParseError::QubitOutOfRange { line: 1 }));
    assert_eq!(parse_cx_circuit(&bytes("4 4\n")), Err(ParseError::SameQubit { line: 0 }));
    assert_eq!(parse_cx_circuit(&bytes("0 2\nX\n")), Err(ParseError::Malformed { line: 1 }));
}

#[test]
fn parse_moves_gives_each_gate_and_its_reverse() {
    let (move_inds, moves) = parse_moves(&bytes("0 9\n3 1\n")).unwrap();
    assert_eq!(move_inds, vec![(0, 9), (9, 0), (3, 1), (1, 3)]);
    assert_eq!(moves.len(), 4);
    for (k, &(a, b)) in move_inds.iter().enumerate() {
        assert_eq!(moves[k], CXCircuit16::from_cxs(&vec![(a, b)]).transpose());
    }
    assert_eq!(parse_moves(&bytes("0 16\n")), Err(ParseError::QubitOutOfRange { line: 0 }));
    assert_eq!(parse_moves(&bytes("1 1\n")), Err(ParseError::SameQubit { line: 0 }));
    assert_eq!(parse_moves(&bytes("1\n")), Err(ParseError::Malformed { line: 0 }));
}

#[test]
fn save_solution_writes_a_gate_a_line() {
    assert_eq!(save_solution(&vec![]), bytes(""));
    let solution = vec![CX { ctrl: 0, tgt: 2 }, CX { ctrl: 12, tgt: 0 }, CX { ctrl: 255, tgt: 100 }];
    assert_eq!(save_solution(&solution), bytes("0 2\n12 0\n255 100\n"));
}

#[test]
fn saved_solution_parses_back() {
    let solution = vec![CX { ctrl: 0, tgt: 2 }, CX { ctrl: 12, tgt: 7 }, CX { ctrl: 15, tgt: 10 }];
    let text = save_solution(&solution);
    assert_eq!(parse_file(&text), Ok(vec![(0, 2), (12, 7), (15, 10)]));
}

#[test]
fn letters_row_reads_a_stabiliser() {
    assert_eq!(letters_row(&bytes("XIIXI")), Some(0b01001));
    assert_eq!(letters_row(&bytes("")), Some(0));
    assert_eq!(letters_row(&bytes("XIZ")), None);
    assert_eq!(letters_row(&bytes("IIIIIIIIIIIIIIIII")), None);
}

#[test]
fn parse_stabiliser_reads_a_row_a_line() {
    let state = parse_stabiliser(&bytes("XIIII\nIXIII\r\nXXIII")).unwrap();
    let rows = state.rows();
    assert_eq!(rows[0], 0b00001);
    assert_eq!(rows[1], 0b00010);
    assert_eq!(rows[2], 0b00011);
    for i in 3..16 {
        assert_eq!(rows[i], 0);
    }
    assert_eq!(parse_stabiliser(&bytes("XI\nIY\n")), Err(ParseError::InvalidStabiliser { line: 1 }));
    assert_eq!(parse_stabiliser(&bytes("XIXIXIXIXIXIXIXIX\n")), Err(ParseError::InvalidStabiliser { line: 0 }));
}

#[test]
fn parse_stabiliser_reads_no_more_than_sixteen_lines() {
    let mut text = String::new();
    for _ in 0..16 {
        text.push_str("X\n");
    }
    text.push_str("not read\n");
    let state = parse_stabiliser(&bytes(&text)).unwrap();
    assert_eq!(state.rows(), [1; 16]);
}
