use cx_synth::a_star::graph::AStarGraph;
use cx_synth::a_star::{a_star, PQCost};
use cx_synth::bfs::{bfs, mitm_bfs, BacktrackError, BFS};
use cx_synth::cx::CX;
use cx_synth::cx_circuit::{CXCircuit, CXCircuit16};
use cx_synth::file_io::parse_stabiliser;
use cx_synth::hash_table::HashTable;
use cx_synth::qubit_set::QubitSet;
use cx_synth::synth::{
    check_solution_correctness, gates_of_moves, gates_of_pairs, moves_of_pairs, search, CircuitOrStabiliser, Outcome,
    SearchAlgorithm,
};

fn all_pairs() -> Vec<(usize, usize)> {
    let mut pairs = Vec::new();
    for a in 0..16 {
        for b in 0..16 {
            if a != b {
                pairs.push((a, b));
            }
        }
    }
    pairs
}

fn circuit(cxs: &[(usize, usize)]) -> CXCircuit16 {
    CXCircuit16::from_cxs(&cxs.to_vec())
}

fn gates(cxs: &[(usize, usize)]) -> Vec<CX> {
    cxs.iter().map(|&pair| CX::from(pair)).collect()
}

#[test]
fn a_star_two_gates_all_to_all() {
    let target = circuit(&[(0, 2), (2, 0)]);
    let result = a_star(CXCircuit16::new(), &target, gates_of_pairs(&all_pairs()), Some(5)).unwrap();
    assert_eq!(result, gates(&[(0, 2), (2, 0)]));
}

#[test]
fn mitm_two_gates_all_to_all() {
    let pairs = all_pairs();
    let target = circuit(&[(0, 2), (2, 0)]);
    let ids = mitm_bfs(target, &moves_of_pairs(&pairs), 5, false).unwrap().unwrap();
    assert_eq!(gates_of_moves(&ids, &pairs).unwrap(), gates(&[(0, 2), (2, 0)]));
}

#[test]
fn three_gates_all_to_all_pass_the_replay() {
    let pairs = all_pairs();
    let source = CircuitOrStabiliser::Circuit(CXCircuit16::new());
    let target = CircuitOrStabiliser::Circuit(circuit(&[(0, 4), (4, 5), (5, 0)]));
    for algo in [SearchAlgorithm::Astar, SearchAlgorithm::MITM] {
        match search(algo, &source, &target, &pairs, 5) {
            Outcome::Solution(solution) => {
                assert_eq!(solution.len(), 3);
                assert!(check_solution_correctness(
                    &solution,
                    source.unwrap_circuit_ref(),
                    &target.unwrap_circuit_ref()
                ));
            }
            other => panic!("no solution: {:?}", other),
        }
    }
}

#[test]
fn a_star_is_no_longer_than_mitm() {
    let pairs = vec![(0, 1), (1, 0), (1, 2), (2, 1), (2, 3), (3, 2)];
    for cxs in [vec![(0, 1)], vec![(0, 1), (1, 2)], vec![(0, 1), (1, 2), (2, 3)], vec![(3, 2), (2, 1), (1, 0)]] {
        let target = circuit(&cxs);
        let by_a_star = a_star(CXCircuit16::new(), &target, gates_of_pairs(&pairs), Some(4)).unwrap();
        let by_mitm = mitm_bfs(target, &moves_of_pairs(&pairs), 4, false).unwrap().unwrap();
        assert!(by_a_star.len() <= by_mitm.len());
        assert_eq!(by_a_star.len(), cxs.len());
        assert!(check_solution_correctness(&by_a_star, CXCircuit16::new(), &target));
    }
}

#[test]
fn a_star_solution_replays_to_the_target() {
    let pairs = vec![(0, 1), (1, 0), (1, 2), (2, 1), (2, 3), (3, 2)];
    for cxs in [vec![(2, 1), (1, 0), (2, 3)], vec![(0, 1), (2, 3), (1, 2), (0, 1)], vec![(3, 2), (0, 1)]] {
        let target = circuit(&cxs);
        let solution = a_star(CXCircuit16::new(), &target, gates_of_pairs(&pairs), Some(6)).unwrap();
        assert!(check_solution_correctness(&solution, CXCircuit16::new(), &target));
    }
}

#[test]
fn a_star_one_gate_away_is_found() {
    let target = circuit(&[(3, 4)]);
    let result = a_star(CXCircuit16::new(), &target, gates(&[(0, 1), (3, 4), (4, 3)]), Some(1)).unwrap();
    assert_eq!(result, gates(&[(3, 4)]));
    let result = a_star(CXCircuit16::new(), &target, gates(&[(0, 1), (3, 4), (4, 3)]), None).unwrap();
    assert_eq!(result, gates(&[(3, 4)]));
}

#[test]
fn a_star_without_moves_finds_nothing() {
    let target = circuit(&[(3, 4)]);
    assert_eq!(a_star(CXCircuit16::new(), &target, vec![], Some(3)), None);
}

#[test]
fn a_star_beyond_the_depth_finds_nothing() {
    let target = circuit(&[(0, 1), (1, 2), (2, 3)]);
    let moves = gates(&[(0, 1), (1, 2), (2, 3)]);
    assert_eq!(a_star(CXCircuit16::new(), &target, moves, Some(1)), None);
}

#[test]
fn a_star_solution_uses_allowed_gates_only() {
    let target = circuit(&[(0, 1), (2, 3), (1, 4)]);
    let moves = gates(&[(0, 1), (2, 3), (1, 4)]);
    let result = a_star(CXCircuit16::new(), &target, moves.clone(), Some(3)).unwrap();
    assert!(result.iter().all(|gate| moves.contains(gate)));
    assert!(check_solution_correctness(&result, CXCircuit16::new(), &target));
}

#[test]
fn stabiliser_search_finds_one_gate() {
    let source = parse_stabiliser(b"XIIII\nIXIII\nIIXII\nIIIXI\nIIIIX\n".to_vec().as_ref()).unwrap();
    let target = parse_stabiliser(b"XXIII\nIXIII\nIIXII\nIIIXI\nIIIIX\n".to_vec().as_ref()).unwrap();
    let outcome = search(
        SearchAlgorithm::AstarStabiliser,
        &CircuitOrStabiliser::Stabiliser(source),
        &CircuitOrStabiliser::Stabiliser(target),
        &all_pairs(),
        5,
    );
    assert_eq!(outcome, Outcome::Solution(gates(&[(1, 0)])));
}

#[test]
fn mitm_extrapolates_to_five_gates() {
    let pairs = vec![(0, 1), (1, 0), (1, 2), (2, 1), (2, 3), (3, 2), (3, 4), (4, 3), (4, 5), (5, 4)];
    let cxs = [(0, 1), (1, 2), (2, 3), (3, 4), (4, 5)];
    let target = circuit(&cxs);
    let moves = moves_of_pairs(&pairs);
    // Two steps from each end reach four gates at most.
    assert_eq!(mitm_bfs(target, &moves, 2, false), Ok(None));
    let ids = mitm_bfs(target, &moves, 2, true).unwrap().unwrap();
    assert_eq!(ids.len(), 5);
    let solution = gates_of_moves(&ids, &pairs).unwrap();
    assert!(check_solution_correctness(&solution, CXCircuit16::new(), &target));
}

#[test]
fn mitm_without_steps_finds_nothing() {
    let pairs = all_pairs();
    assert_eq!(mitm_bfs(circuit(&[(0, 1)]), &moves_of_pairs(&pairs), 0, true), Ok(None));
    assert_eq!(bfs(circuit(&[(0, 1)]), &moves_of_pairs(&pairs), 0), Ok(None));
}

#[test]
fn mitm_one_gate() {
    let pairs = vec![(0, 1), (1, 0), (1, 2), (2, 1)];
    let ids = mitm_bfs(circuit(&[(1, 2)]), &moves_of_pairs(&pairs), 3, false).unwrap().unwrap();
    assert_eq!(gates_of_moves(&ids, &pairs).unwrap(), gates(&[(1, 2)]));
}

#[test]
fn bfs_finds_the_gates_in_order() {
    let pairs = vec![(0, 1), (1, 0), (1, 2), (2, 1)];
    let cxs = [(0, 1), (1, 2), (1, 0)];
    let cxs = [(0, 1), (1, 2), (0, 1)];
    let ids = bfs(circuit(&cxs), &moves_of_pairs(&pairs), 3).unwrap().unwrap();
    assert_eq!(gates_of_moves(&ids, &pairs).unwrap(), gates(&cxs));
    assert_eq!(bfs(circuit(&cxs), &moves_of_pairs(&pairs), 2), Ok(None));
}

#[test]
fn bfs_layers_and_backtrack() {
    let pairs = vec![(0, 1), (1, 0)];
    let moves = moves_of_pairs(&pairs);
    let mut search = BFS::new(CXCircuit16::new(), &moves);
    assert_eq!(search.depth(), 0);
    assert_eq!(search.frontier().len(), 1);
    search.step();
    assert_eq!(search.depth(), 1);
    assert_eq!(search.frontier().len(), 2);
    assert_eq!(search.frontier().entry(0), (circuit(&[(0, 1)]), 0));
    assert_eq!(search.frontier().entry(1), (circuit(&[(1, 0)]), 1));
    search.step();
    // The identity is in the layer before the last, so only two circuits are new.
    assert_eq!(search.frontier().len(), 2);
    assert_eq!(search.backtrack(&circuit(&[(0, 1), (1, 0)])), Ok(vec![0, 1]));
    assert_eq!(search.backtrack(&circuit(&[(1, 0), (0, 1)])), Ok(vec![1, 0]));
    assert_eq!(search.backtrack(&circuit(&[(0, 1)])), Ok(vec![0]));
    assert_eq!(search.backtrack(&CXCircuit16::new()), Ok(vec![]));
    // A circuit that no layer holds does not lead back to the root.
    assert_eq!(search.backtrack(&circuit(&[(5, 6)])), Err(BacktrackError::NotAtRoot));
}

#[test]
fn gates_of_moves_refuses_unknown_positions() {
    let pairs = vec![(0, 1), (1, 0)];
    assert_eq!(gates_of_moves(&vec![1, 0], &pairs), Some(gates(&[(1, 0), (0, 1)])));
    assert_eq!(gates_of_moves(&vec![1, 2], &pairs), None);
}

#[test]
fn search_from_both_ends_starts_at_the_identity() {
    let pairs = vec![(0, 1), (1, 0), (1, 2), (2, 1)];
    let source = CircuitOrStabiliser::Circuit(circuit(&[(0, 1)]));
    let target = CircuitOrStabiliser::Circuit(circuit(&[(0, 1), (1, 2)]));
    match search(SearchAlgorithm::MITM, &source, &target, &pairs, 3) {
        Outcome::Incorrect(solution) => assert_eq!(solution, gates(&[(0, 1), (1, 2)])),
        other => panic!("unexpected outcome: {:?}", other),
    }
    assert_eq!(search(SearchAlgorithm::Astar, &source, &target, &pairs, 3), Outcome::Solution(gates(&[(1, 2)])));
}

#[test]
fn search_without_solution() {
    let pairs = vec![(0, 1), (1, 0)];
    let source = CircuitOrStabiliser::Circuit(CXCircuit16::new());
    let target = CircuitOrStabiliser::Circuit(circuit(&[(5, 6)]));
    for algo in [SearchAlgorithm::Astar, SearchAlgorithm::MITM] {
        assert_eq!(search(algo, &source, &target, &pairs, 3), Outcome::NoSolution);
    }
}

#[test]
fn replay_checks_a_solution() {
    let target = circuit(&[(0, 1), (1, 2)]);
    assert!(check_solution_correctness(&gates(&[(0, 1), (1, 2)]), CXCircuit16::new(), &target));
    assert!(!check_solution_correctness(&gates(&[(1, 2), (0, 1)]), CXCircuit16::new(), &target));
    assert!(check_solution_correctness(&vec![], target, &target));
}

#[test]
fn queue_rank() {
    let rank = PQCost::new(7, 3);
    assert_eq!(rank.cost(), 7);
    assert_eq!(rank.key(), (usize::MAX - 7, 3));
    assert_eq!(PQCost::from_key(rank.key()), rank);
    // A lower estimate ranks higher; among equal estimates more gates rank higher.
    assert!(PQCost::new(6, 0).key() > PQCost::new(7, 9).key());
    assert!(PQCost::new(7, 4).key() > PQCost::new(7, 3).key());
}

#[test]
fn graph_holds_no_value_twice() {
    let mut graph = AStarGraph::new(CXCircuit16::new(), vec![]);
    let child = graph.add_cx(0, CX { ctrl: 0, tgt: 1 }).unwrap();
    assert_eq!(child, 1);
    // The same gate again leads to the value of the child, and back to the root's.
    assert_eq!(graph.add_cx(0, CX { ctrl: 0, tgt: 1 }), None);
    assert_eq!(graph.add_cx(child, CX { ctrl: 0, tgt: 1 }), None);
    assert_eq!(graph.len(), 2);
    let other = graph.add_cx(0, CX { ctrl: 2, tgt: 3 }).unwrap();
    let mut used = QubitSet::empty();
    used.insert(3);
    let merged = graph.add_merge(child, other, &used).unwrap();
    assert_eq!(graph.add_merge(child, other, &used), None);
    assert_eq!(graph.len(), 4);
    for i in 0..graph.len() {
        for j in 0..i {
            assert_ne!(graph.value(i), graph.value(j));
        }
    }
    assert_eq!(graph.value(merged), Some(&CXCircuit16::from_cxs(&vec![(0, 1), (2, 3)])));
    assert_eq!(graph.value(17), None);
}

#[test]
fn graph_costs_counts_and_paths() {
    let mut graph = AStarGraph::new(CXCircuit16::new(), vec![]);
    let a = graph.add_cx(0, CX { ctrl: 0, tgt: 1 }).unwrap();
    let b = graph.add_cx(a, CX { ctrl: 1, tgt: 4 }).unwrap();
    let c = graph.add_cx(0, CX { ctrl: 2, tgt: 3 }).unwrap();
    let mut used = QubitSet::empty();
    used.insert(3);
    let m = graph.add_merge(b, c, &used).unwrap();
    assert_eq!(graph.cost(0), 0);
    assert_eq!(graph.cost(b), 2);
    assert_eq!(graph.cost(m), 3);
    assert_eq!(graph.cx_counts(0), &Vec::<u16>::new());
    assert_eq!(graph.cx_counts(b), &vec![1, 2, 0, 0, 1]);
    assert_eq!(graph.cx_counts(m), &vec![1, 2, 1, 1, 1]);
    assert_eq!(graph.path(0), vec![]);
    assert_eq!(graph.path(b), gates(&[(0, 1), (1, 4)]));
    let path = graph.path(m);
    assert_eq!(path.len(), 3);
    assert!(check_solution_correctness(&path, CXCircuit16::new(), graph.value(m).unwrap()));
    assert_eq!(graph.children(0), vec![a, c]);
    assert_eq!(graph.children(b), vec![m]);
    assert_eq!(graph.children(c), vec![m]);
    assert_eq!(graph.prev_edge(0), None);
    assert_eq!(graph.prev_edge(m).unwrap().srcs(), vec![b, c]);
    assert_eq!(graph.prev_edge(m).unwrap().dst(), m);
    assert_eq!(graph.next_edges(a).len(), 1);
    assert!(graph.is_expanded(a) && !graph.is_expanded(m));
    assert_eq!(graph.disallowed_qubits(a, b).to_vec(), vec![1, 4]);
    assert_eq!(graph.disallowed_qubits(0, m).to_vec(), vec![0, 1, 2, 3, 4]);
    assert_eq!(graph.disallowed_qubits(m, a).to_vec(), Vec::<u8>::new());
}

#[test]
fn graph_keeps_each_allowed_gate_once() {
    let moves = gates(&[(0, 1), (1, 2), (0, 1), (2, 1), (1, 2)]);
    let graph = AStarGraph::new(CXCircuit16::new(), moves);
    assert_eq!(graph.allowed_moves(), &gates(&[(0, 1), (1, 2), (2, 1)]));
    assert!(graph.is_allowed(CX { ctrl: 2, tgt: 1 }));
    assert!(!graph.is_allowed(CX { ctrl: 1, tgt: 0 }));
}

#[test]
fn expansion_follows_the_edge_before() {
    let target = CXCircuit16::from_cxs(&vec![(9, 10)]);
    let moves = gates(&[(0, 1), (1, 2), (3, 4), (2, 0)]);
    let mut graph = AStarGraph::new(CXCircuit16::new(), moves);
    assert_eq!(graph.cx_gates(0), gates(&[(0, 1), (1, 2), (3, 4), (2, 0)]));
    graph.expand_children(0, &target);
    assert_eq!(graph.children(0), vec![1, 2, 3, 4]);
    // Below the edge of CX(3, 4) only gates on qubit 3 or 4 follow.
    assert_eq!(graph.cx_gates(3), gates(&[(3, 4)]));
    assert_eq!(graph.cx_gates(1), gates(&[(0, 1), (1, 2), (2, 0)]));
    graph.expand_children(1, &target);
    // CX(0, 1) again leads back to the root's value, which the graph has.
    assert_eq!(graph.len(), 7);
    // The node of CX(3, 4) gets no CX child, so it is merged with what was expanded.
    assert!(graph.is_mergeable(3, &target));
    assert!(!graph.is_mergeable(0, &target));
    assert!(!graph.is_mergeable(1, &target));
    let partners: Vec<usize> = graph.find_mergeable_nodes(3).iter().map(|pair| pair.0).collect();
    assert_eq!(partners, vec![1]);
    let taken = graph.find_mergeable_nodes(3)[0].1;
    assert_eq!(taken.to_vec(), vec![0, 1]);
    // The qubits taken from the partner are none of those that the gates of
    // node 3 touched since the ways of the two parted at the root.
    let forbidden = graph.disallowed_qubits(0, 3);
    assert_eq!(forbidden.to_vec(), vec![3, 4]);
    assert!(forbidden.intersection(&taken).is_empty());
    graph.expand_children(3, &target);
    assert_eq!(graph.len(), 8);
    assert_eq!(graph.prev_edge(7).unwrap().srcs(), vec![3, 1]);
    assert_eq!(graph.value(7), Some(&CXCircuit16::from_cxs(&vec![(0, 1), (3, 4)])));
    assert_eq!(graph.get_cx_qbs(&graph.prev_edge(7).unwrap()), Some(([3, 4], [0, 1])));
}

#[test]
fn hash_table_counts() {
    let mut table = HashTable::<CXCircuit16, 1>::new();
    assert!(table.insert(CXCircuit16::new(), (0, 0)));
    assert!(!table.insert(CXCircuit16::new(), (0, 0)));
    assert_eq!((table.n_inserts, table.n_collisions), (1, 0));
    assert!(!table.insert(CXCircuit16::from_cxs(&vec![(0, 1)]), (0, 1)));
    assert_eq!((table.n_inserts, table.n_collisions), (1, 1));
    assert_eq!(table.intersection(&table), vec![CXCircuit16::new()]);
}

#[test]
fn way_through_a_merge_replays() {
    let target = CXCircuit16::from_cxs(&vec![(9, 10)]);
    let mut graph = AStarGraph::new(CXCircuit16::new(), vec![]);
    let a = graph.add_cx(0, CX { ctrl: 0, tgt: 1 }).unwrap();
    let b = graph.add_cx(a, CX { ctrl: 1, tgt: 2 }).unwrap();
    let c = graph.add_cx(a, CX { ctrl: 3, tgt: 4 }).unwrap();
    // Give the node a child: only expanded nodes are merged.
    graph.add_cx(c, CX { ctrl: 0, tgt: 2 }).unwrap();
    assert!(graph.is_mergeable(b, &target));
    let partners = graph.find_mergeable_nodes(b);
    assert_eq!(partners.len(), 1);
    assert_eq!(partners[0].0, c);
    assert_eq!(partners[0].1.to_vec(), vec![3, 4]);
    let m = graph.add_merge(b, c, &partners[0].1).unwrap();
    assert_eq!(graph.value(m), Some(&CXCircuit16::from_cxs(&vec![(0, 1), (1, 2), (3, 4)])));
    // What the two nodes share comes once, and before what either added.
    let path = graph.path(m);
    assert_eq!(path, gates(&[(0, 1), (1, 2), (3, 4)]));
    let pairs: Vec<(usize, usize)> = path.iter().map(|cx| (cx.ctrl as usize, cx.tgt as usize)).collect();
    assert_eq!(CXCircuit16::from_cxs(&pairs), *graph.value(m).unwrap());
    assert!(check_solution_correctness(&path, CXCircuit16::new(), graph.value(m).unwrap()));
}

#[test]
fn merge_of_any_two_nodes_is_added() {
    let mut graph = AStarGraph::new(CXCircuit16::new(), vec![]);
    let a = graph.add_cx(0, CX { ctrl: 0, tgt: 1 }).unwrap();
    let b = graph.add_cx(0, CX { ctrl: 1, tgt: 2 }).unwrap();
    // Row 2 of the second node was made from row 1 as it was before the first
    // node changed it: no order of the two gates gives the merged value, and
    // the merge is added all the same.
    let mut used = QubitSet::empty();
    used.insert(2);
    let m = graph.add_merge(a, b, &used).unwrap();
    assert_eq!(m, 3);
    assert_eq!(graph.len(), 4);
    let mut rows = graph.value(a).unwrap().rows();
    rows[2] = graph.value(b).unwrap().rows()[2];
    assert_eq!(graph.value(m).unwrap().rows(), rows);
    assert_eq!(graph.cost(m), 2);
    assert_eq!(graph.cx_counts(m), &vec![1, 2, 1]);
    assert_eq!(graph.prev_edge(m).unwrap().srcs(), vec![a, b]);
    assert_eq!(graph.next_edges(a).last(), graph.prev_edge(m).as_ref());
    assert_eq!(graph.next_edges(b).last(), graph.prev_edge(m).as_ref());
    // The same merge again finds its value in the graph.
    assert_eq!(graph.add_merge(a, b, &used), None);
    assert_eq!(graph.len(), 4);
    // The circuit of such a node need not give its value.
    assert_eq!(graph.path(m), gates(&[(0, 1), (1, 2)]));
    assert!(!check_solution_correctness(&graph.path(m), CXCircuit16::new(), graph.value(m).unwrap()));
}

#[test]
fn a_star_may_miss_two_gates_on_separate_qubits() {
    let target = CXCircuit16::from_cxs(&vec![(0, 1), (2, 3)]);
    // Either gate completes two qubits, so neither node gets a child, and the
    // two nodes are merged only with nodes that have one.
    assert_eq!(a_star(CXCircuit16::new(), &target, gates(&[(0, 1), (2, 3)]), Some(5)), None);
    let ids = mitm_bfs(target, &moves_of_pairs(&vec![(0, 1), (2, 3)]), 5, false).unwrap().unwrap();
    assert_eq!(ids.len(), 2);
}

#[test]
fn every_way_of_a_graph_replays() {
    let target = CXCircuit16::from_cxs(&vec![(0, 1), (1, 2), (3, 4)]);
    let mut graph = AStarGraph::new(CXCircuit16::new(), gates(&[(0, 1), (1, 2), (3, 4), (2, 0)]));
    for node in 0..6 {
        if node < graph.len() {
            graph.expand_children(node, &target);
        }
    }
    for node in 0..graph.len() {
        assert!(check_solution_correctness(&graph.path(node), CXCircuit16::new(), graph.value(node).unwrap()));
    }
}

#[test]
fn no_circuit_is_in_two_layers() {
    let pairs = vec![(0, 1), (1, 0), (1, 2), (2, 1)];
    let moves = moves_of_pairs(&pairs);
    let mut search = BFS::new(CXCircuit16::new(), &moves);
    for _ in 0..4 {
        search.step();
    }
    assert_eq!(search.depth(), 4);
    let mut seen: Vec<CXCircuit16> = Vec::new();
    for d in 0..=search.depth() {
        let layer = search.layer(d);
        for i in 0..layer.len() {
            let (circ, _) = layer.entry(i);
            assert!(!seen.contains(&circ));
            seen.push(circ);
        }
    }
    // The first layers: the identity, then one circuit for each gate.
    assert_eq!(search.layer(0).len(), 1);
    assert_eq!(search.layer(1).len(), 4);
}

#[test]
fn way_back_has_a_move_for_each_layer() {
    let pairs = vec![(0, 1), (1, 0), (1, 2), (2, 1)];
    let moves = moves_of_pairs(&pairs);
    let mut search = BFS::new(CXCircuit16::new(), &moves);
    for _ in 0..3 {
        search.step();
    }
    for d in 0..=search.depth() {
        let layer = search.layer(d);
        for i in 0..layer.len() {
            let (circ, _) = layer.entry(i);
            let ids = search.backtrack(&circ).unwrap();
            assert_eq!(ids.len(), d);
            // The moves come last move first: undone in turn they lead to the identity.
            let mut back = circ;
            for &id in &ids {
                back = back.mult_transpose(&moves[id]);
            }
            assert_eq!(back, CXCircuit16::new());
        }
    }
}

#[test]
fn bfs_finds_a_shortest_circuit() {
    let pairs = vec![(0, 1), (1, 0), (1, 2), (2, 1), (0, 2)];
    let moves = moves_of_pairs(&pairs);
    // Three gates, of which the first two cancel.
    let target = circuit(&[(0, 1), (0, 1), (1, 2)]);
    assert_eq!(bfs(target, &moves, 5), Ok(Some(vec![2])));
    // CX(0, 1) then CX(1, 2) adds row 0 to row 2 as well: with CX(0, 2) after
    // them that is undone, and two gates of another order give the same.
    let target = circuit(&[(0, 1), (1, 2), (0, 2)]);
    let ids = bfs(target, &moves, 5).unwrap().unwrap();
    assert_eq!(ids.len(), 2);
    assert_eq!(circuit(&[pairs[ids[0]], pairs[ids[1]]]), target);
    // The identity is in no layer but the first.
    assert_eq!(bfs(CXCircuit16::new(), &moves, 4), Ok(None));
}

#[test]
fn search_from_both_ends_replays_beyond_its_layers() {
    let pairs = vec![(0, 1), (1, 2), (2, 3), (3, 4), (4, 5)];
    let moves = moves_of_pairs(&pairs);
    let cxs = [(0, 1), (1, 2), (2, 3), (3, 4), (4, 5)];
    let target = circuit(&cxs);
    assert_eq!(mitm_bfs(target, &moves, 2, false), Ok(None));
    let ids = mitm_bfs(target, &moves, 2, true).unwrap().unwrap();
    let found: Vec<(usize, usize)> = ids.iter().map(|&id| pairs[id]).collect();
    assert_eq!(found.len(), 5);
    assert_eq!(circuit(&found), target);
}

#[test]
fn circuits_of_gates_have_rows_that_differ() {
    let c = circuit(&[(0, 1), (1, 2), (2, 0), (5, 0), (0, 5), (15, 14), (1, 0)]);
    let rows = c.rows();
    for i in 0..16 {
        assert_ne!(rows[i], 0);
        for j in 0..i {
            assert_ne!(rows[i], rows[j]);
        }
    }
}

#[test]
fn search_from_both_ends_is_no_longer_than_best_first() {
    let pairs = vec![(0, 1), (1, 2), (2, 3), (3, 4), (0, 4), (1, 0), (2, 1), (3, 2), (4, 3), (4, 0)];
    let target = circuit(&[(0, 1), (3, 2), (0, 4)]);
    let by_mitm = mitm_bfs(target, &moves_of_pairs(&pairs), 4, false).unwrap().unwrap();
    assert_eq!(by_mitm.len(), 3);
    match a_star(CXCircuit16::new(), &target, gates_of_pairs(&pairs), Some(8)) {
        Some(by_a_star) => {
            assert!(check_solution_correctness(&by_a_star, CXCircuit16::new(), &target));
            assert!(by_mitm.len() <= by_a_star.len());
        },
        None => {},
    }
}

#[test]
fn search_from_both_ends_on_the_identity() {
    // The two searches are compared after their first steps only: for the
    // identity they meet at a gate, and the circuit is that gate twice.
    let pairs = vec![(0, 1), (1, 2)];
    let ids = mitm_bfs(CXCircuit16::new(), &moves_of_pairs(&pairs), 3, false).unwrap().unwrap();
    assert_eq!(ids.len(), 2);
    assert_eq!(ids[0], ids[1]);
}

#[test]
fn a_move_that_does_not_undo_itself_loses_the_way_back() {
    // Two gates in one move: made twice, the move does not give the identity.
    let moves = vec![circuit(&[(0, 1), (1, 2)]).transpose()];
    let once = CXCircuit16::new().mult_transpose(&moves[0]);
    assert_ne!(once.mult_transpose(&moves[0]), CXCircuit16::new());
    assert_eq!(bfs(once, &moves, 2), Err(BacktrackError::NotAtRoot));
    assert_eq!(mitm_bfs(once, &moves, 2, false), Err(BacktrackError::NotAtRoot));
}

#[test]
fn search_from_both_ends_finds_a_shortest_circuit_beyond_its_layers() {
    // A chain of five gates, each on a new qubit: no circuit of fewer gates
    // gives it, since each of the rows 1 to 5 has to change.
    let pairs = vec![(0, 1), (1, 2), (2, 3), (3, 4), (4, 5), (5, 4), (2, 0)];
    let moves = moves_of_pairs(&pairs);
    let target = circuit(&[(0, 1), (1, 2), (2, 3), (3, 4), (4, 5)]);
    let ids = mitm_bfs(target, &moves, 2, true).unwrap().unwrap();
    assert_eq!(ids.len(), 5);
    let found: Vec<(usize, usize)> = ids.iter().map(|&id| pairs[id]).collect();
    assert_eq!(circuit(&found), target);
    // With enough rounds the two searches meet, at the same number of gates.
    assert_eq!(mitm_bfs(target, &moves, 3, false).unwrap().unwrap().len(), 5);
    assert_eq!(bfs(target, &moves, 5).unwrap().unwrap().len(), 5);
    assert_eq!(bfs(target, &moves, 4), Ok(None));
}

#[test]
fn merges_made_by_expansions_replay() {
    let target = circuit(&[(0, 1), (2, 3), (4, 5), (1, 2), (3, 4)]);
    let moves = gates(&[(0, 1), (2, 3), (4, 5), (1, 2), (3, 4), (5, 0), (1, 0), (3, 2)]);
    let mut graph = AStarGraph::new(CXCircuit16::new(), moves);
    let mut node = 0;
    while node < graph.len() && graph.len() < 400 {
        graph.expand_children(node, &target);
        node += 1;
    }
    let mut merges = 0;
    for node in 0..graph.len() {
        if graph.prev_edge(node).map_or(false, |edge| edge.srcs().len() == 2) {
            merges += 1;
        }
        assert!(check_solution_correctness(&graph.path(node), CXCircuit16::new(), graph.value(node).unwrap()));
    }
    assert!(merges > 0);
}
