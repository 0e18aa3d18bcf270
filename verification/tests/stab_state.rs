use cx_synth::a_star::AStarValue;
use cx_synth::qubit_set::QubitSet;
use cx_synth::stab_state::{is_set, line_row, u16_as_str, valid_line, StabiliserState};

#[test]
fn from_strs_sets_a_bit_for_each_x() {
    let s = StabiliserState::<5>::from_strs(&vec!["XIIII", "IXIII", "XXIIX"]);
    assert_eq!(s.rows(), [0b00001, 0b00010, 0b10011, 0, 0]);
}

#[test]
fn from_strs_leaves_lines_beyond_the_rows_aside() {
    let s = StabiliserState::<2>::from_strs(&vec!["XI", "IX", "XX"]);
    assert_eq!(s.rows(), [0b01, 0b10]);
    let empty = StabiliserState::<3>::from_strs(&vec![]);
    assert_eq!(empty.rows(), [0, 0, 0]);
}

#[test]
fn letters() {
    assert!(is_set('X'));
    assert!(!is_set('I'));
    assert!(valid_line("XIXI"));
    assert!(valid_line(""));
    assert!(valid_line("XXXXXXXXXXXXXXXX"));
    assert!(!valid_line("XXXXXXXXXXXXXXXXI"));
    assert!(!valid_line("XZ"));
    assert!(!valid_line("x"));
    assert_eq!(line_row("IXXI"), 0b0110);
    assert_eq!(line_row("IIIIIIIIIIIIIIIX"), 0x8000);
}

#[test]
fn stabiliser_cx_and_dist() {
    let s = StabiliserState::<5>::from_strs(&vec!["XIIII", "IXIII", "IIXII", "IIIXI", "IIIIX"]);
    let t = s.cx(1, 0);
    assert_eq!(t.rows(), [0b00011, 0b00010, 0b00100, 0b01000, 0b10000]);
    assert_eq!(s.dist(&t), 1);
    assert_eq!(t.dist(&t), 0);
    assert!(!t.is_complete(0, &s));
    assert!(t.is_complete(1, &s));
    assert_eq!(t.cx(1, 0), s);
    assert_eq!(t.encode(), vec![0b00011, 0b00010, 0b00100, 0b01000, 0b10000]);
}

#[test]
fn stabiliser_merge() {
    let s = StabiliserState::<5>::from_strs(&vec!["XIIII", "IXIII", "IIXII", "IIIXI", "IIIIX"]);
    let a = s.cx(0, 1);
    let b = s.cx(2, 3);
    let mut used = QubitSet::empty();
    used.insert(3);
    let merged = a.merge(&b, &used);
    assert_eq!(merged.rows(), [0b00001, 0b00011, 0b00100, 0b01100, 0b10000]);
}

#[test]
fn bits_as_letters() {
    assert_eq!(u16_as_str::<5>(0b00101, 'X'), "XIXII");
    assert_eq!(u16_as_str::<5>(0b100101, 'X'), "XIXII");
    assert_eq!(u16_as_str::<3>(0, 'Z'), "III");
    assert_eq!(u16_as_str::<16>(0x8001, 'Z'), "ZIIIIIIIIIIIIIIZ");
    assert_eq!(u16_as_str::<0>(7, 'X'), "");
}

#[test]
fn state_as_lines_and_back() {
    let lines = vec!["XIIII", "IXIIX", "IIIII", "XXXXX", "IIIIX"];
    let s = StabiliserState::<5>::from_strs(&lines);
    assert_eq!(s.to_strs(), lines);
    let again: Vec<&str> = lines.iter().map(|line| &line[..]).collect();
    assert_eq!(StabiliserState::<5>::from_strs(&again), s);
}

#[test]
fn from_strs_does_not_read_lines_beyond_the_rows() {
    let s = StabiliserState::<2>::from_strs(&vec!["XI", "IX", "not a line"]);
    assert_eq!(s.rows(), [0b01, 0b10]);
}
