use cx_synth::a_star::graph::AStarGraph;
use cx_synth::cx::CX;
use cx_synth::qubit_set::QubitSet;
use cx_synth::stab_state::StabiliserState;

/// Five qubits, each with its own X: every gate gives a state not seen before.
fn start() -> StabiliserState<5> {
    StabiliserState::from_strs(&vec!["XIIII", "IXIII", "IIXII", "IIIXI", "IIIIX"])
}

fn qubits(list: &[u8]) -> QubitSet {
    let mut set = QubitSet::empty();
    for &q in list {
        set.insert(q);
    }
    set
}

fn sorted(mut nodes: Vec<usize>) -> Vec<usize> {
    nodes.sort();
    nodes
}

#[test]
fn test_add_cx() {
    let mut graph = AStarGraph::new(start(), vec![]);
    let child = graph.add_cx(graph.root_ind(), CX { ctrl: 0, tgt: 1 }).unwrap();
    assert_eq!(graph.cost(child), 1);
    assert_eq!(graph.cx_counts(child), &vec![1, 1]);
    let grandchild = graph.add_cx(child, CX { ctrl: 0, tgt: 2 }).unwrap();
    assert_eq!(graph.cost(grandchild), 2);
    assert_eq!(graph.cx_counts(grandchild), &vec![2, 1, 1]);
}

#[test]
fn test_disallowed_qubits() {
    let mut graph = AStarGraph::new(start(), vec![]);
    let child1 = graph.add_cx(graph.root_ind(), CX { ctrl: 0, tgt: 1 }).unwrap();
    let child2 = graph.add_cx(graph.root_ind(), CX { ctrl: 2, tgt: 3 }).unwrap();
    let grandchild = graph.add_merge(child1, child2, &qubits(&[2, 3])).unwrap();
    assert_eq!(graph.disallowed_qubits(child1, grandchild), qubits(&[2, 3]));
    assert_eq!(graph.disallowed_qubits(child2, grandchild), qubits(&[0, 1]));
}

/// The search graph of this test:
///
///  0 -- CX(0, 1) --> 1
///  0 -- CX(4, 3) --> 2
///  0 -- CX(2, 3) --> 3
///  1 -- CX(1, 2) --> 4
///  1 -- CX(3, 4) --> 5
#[test]
fn test_find_mergeable_nodes() {
    let mut graph = AStarGraph::new(start(), vec![]);
    let children: Vec<usize> = [CX { ctrl: 0, tgt: 1 }, CX { ctrl: 4, tgt: 3 }, CX { ctrl: 2, tgt: 3 }]
        .into_iter()
        .map(|cx| graph.add_cx(graph.root_ind(), cx).unwrap())
        .collect();

    // Give the two nodes a child: only expanded nodes are merged.
    graph.add_cx(children[1], CX { ctrl: 0, tgt: 4 }).unwrap();
    graph.add_cx(children[2], CX { ctrl: 0, tgt: 4 }).unwrap();
    assert!(graph.is_expanded(children[1]));
    assert!(graph.is_expanded(children[2]));

    let mergeable_nodes = graph.find_mergeable_nodes(children[0]);
    assert_eq!(
        sorted(mergeable_nodes.iter().map(|pair| pair.0).collect()),
        sorted(vec![children[1], children[2]])
    );

    let grandchild = graph.add_cx(children[0], CX { ctrl: 1, tgt: 2 }).unwrap();
    let grandchild2 = graph.add_cx(children[0], CX { ctrl: 3, tgt: 4 }).unwrap();

    // Give the node a child: only expanded nodes are merged.
    graph.add_cx(grandchild2, CX { ctrl: 0, tgt: 2 }).unwrap();
    assert!(graph.is_expanded(grandchild2));

    let mergeable_nodes = graph.find_mergeable_nodes(grandchild);
    assert_eq!(
        sorted(mergeable_nodes.iter().map(|pair| pair.0).collect()),
        sorted(vec![grandchild2, children[1]])
    );
}
