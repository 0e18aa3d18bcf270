use cx_synth::bfs::{bfs, mitm_bfs, BacktrackError};
use cx_synth::cx_circuit::{CXCircuit, CXCircuit16};

/// Every pair of distinct qubits, both ways round: the pairs, and for each the
/// transposed matrix of its gate.
fn all_to_all() -> (Vec<(usize, usize)>, Vec<CXCircuit16>) {
    let mut moves = Vec::new();
    let mut move_inds = Vec::new();
    for a in 0..16 {
        for b in (a + 1)..16 {
            moves.push(CXCircuit16::from_cxs(&vec![(a, b)]).transpose());
            move_inds.push((a, b));
            moves.push(CXCircuit16::from_cxs(&vec![(b, a)]).transpose());
            move_inds.push((b, a));
        }
    }
    (move_inds, moves)
}

fn run_test_e2e(
    cx_list: &[(usize, usize)],
    search: impl Fn(CXCircuit16, &Vec<CXCircuit16>, usize) -> Result<Option<Vec<usize>>, BacktrackError>,
) {
    let (move_inds, moves) = all_to_all();
    let mut circuit = CXCircuit16::new();
    for &(ctrl, tgt) in cx_list {
        circuit.add_cx(ctrl, tgt);
    }
    let solution = search(circuit, &moves, 5).unwrap().unwrap();
    assert_eq!(solution.iter().map(|&move_ind| move_inds[move_ind]).collect::<Vec<_>>(), cx_list);
}

#[test]
fn simle_case_e2e() {
    let test_cases = [vec![(0, 2), (2, 0)], vec![(0, 4), (4, 5), (5, 0)]];
    for cx_list in &test_cases {
        run_test_e2e(cx_list, bfs);
        run_test_e2e(cx_list, |a, b, c| mitm_bfs(a, b, c, false));
    }
}

#[test]
fn mitm_two_gates() {
    run_test_e2e(&[(0, 2), (2, 0)], |a, b, c| mitm_bfs(a, b, c, false));
}

#[test]
fn mitm_three_gates() {
    run_test_e2e(&[(0, 4), (4, 5), (5, 0)], |a, b, c| mitm_bfs(a, b, c, false));
}

#[test]
fn bfs_two_gates() {
    run_test_e2e(&[(0, 2), (2, 0)], bfs);
}
