use cx_synth::a_star::a_star;
use cx_synth::cx::CX;
use cx_synth::cx_circuit::{CXCircuit, CXCircuit16};

#[test]
fn test_a_star_simple() {
    let mut circuit = CXCircuit16::new();
    circuit.add_cx(0, 9);
    circuit.add_cx(0, 10);
    let moves = vec![CX { ctrl: 0, tgt: 9 }, CX { ctrl: 0, tgt: 10 }];
    let result = a_star(CXCircuit16::new(), &circuit, moves, Some(2)).unwrap();
    assert_eq!(result.len(), 2);
}

#[test]
fn test_a_star_with_merge() {
    let mut circuit = CXCircuit16::new();
    circuit.add_cx(0, 1);
    circuit.add_cx(2, 3);
    circuit.add_cx(1, 4);
    let moves = vec![CX { ctrl: 0, tgt: 1 }, CX { ctrl: 2, tgt: 3 }, CX { ctrl: 1, tgt: 4 }];
    let result = a_star(CXCircuit16::new(), &circuit, moves, Some(3)).unwrap();
    assert_eq!(result.len(), 3);
}
