//! What the best-first search finds where the target is one gate away, and how
//! that compares with the search from both ends.

use vstd::prelude::*;
use crate::a_star::graph::{spec_dedup, lemma_dedup, GraphModel};
use crate::a_star::{
    lemma_push_new, lemma_queue_remove, spec_a_star, spec_a_star_from, spec_better, spec_estimate, spec_is_top,
    spec_one_gate_away, spec_push_new, spec_queue_key, spec_queue_ok, spec_top, AStarValue,
};
use crate::a_star::graph::spec_replay;
use crate::bfs::spec_mitm_bfs;
use crate::bfs_sound::{lemma_mitm_bfs_sound, lemma_mitm_shortest_circuit, lemma_searches_complete, spec_gates_of};
use crate::cx::CX;
use crate::cx_circuit::{CXCircuit, CXCircuit16};
use crate::synth::{spec_gates_of_pairs, spec_moves_of_pairs, spec_valid_pair};

verus! {

/// Looking at new nodes keeps a solution or finds a shorter one.
pub proof fn lemma_push_keeps<V: AStarValue>(
    g: GraphModel<V>,
    queue: Map<usize, (usize, usize, usize)>,
    best: Option<Seq<CX>>,
    target: V,
    child: int,
    after: int,
)
    requires
        best is Some,
    ensures
        spec_push_new(g, queue, best, target, child, after).1 is Some,
        spec_push_new(g, queue, best, target, child, after).1->0.len() <= best->0.len(),
    decreases after - child,
{
    if !(child < 0 || child >= after) {
        let best2 = if g.values[child] == target {
            spec_better(best, g.spec_path(child))
        } else {
            best
        };
        let key = spec_queue_key(spec_estimate(g, child, target), g.nodes[child].cost as usize, child as usize);
        lemma_push_keeps(g, queue.insert(child as usize, key), best2, target, child + 1, after);
    }
}

/// Looking at new nodes of which one holds the target finds a solution that is
/// no longer than the way to that node.
pub proof fn lemma_push_finds<V: AStarValue>(
    g: GraphModel<V>,
    queue: Map<usize, (usize, usize, usize)>,
    best: Option<Seq<CX>>,
    target: V,
    child: int,
    after: int,
    c: int,
)
    requires
        0 <= child <= c < after,
        g.values[c] == target,
    ensures
        spec_push_new(g, queue, best, target, child, after).1 is Some,
        spec_push_new(g, queue, best, target, child, after).1->0.len() <= g.spec_path(c).len(),
    decreases after - child,
{
    let best2 = if g.values[child] == target {
        spec_better(best, g.spec_path(child))
    } else {
        best
    };
    let key = spec_queue_key(spec_estimate(g, child, target), g.nodes[child].cost as usize, child as usize);
    if child == c {
        lemma_push_keeps(g, queue.insert(child as usize, key), best2, target, child + 1, after);
    } else {
        lemma_push_finds(g, queue.insert(child as usize, key), best2, target, child + 1, after, c);
    }
}

/// A search that has a solution ends with a solution that is no longer.
pub proof fn lemma_from_keeps<V: AStarValue>(
    g: GraphModel<V>,
    queue: Map<usize, (usize, usize, usize)>,
    best: Option<Seq<CX>>,
    max_cost: Option<usize>,
    target: V,
    max_depth: Option<usize>,
)
    requires
        best is Some,
    ensures
        spec_a_star_from(g, queue, best, max_cost, target, max_depth) is Some,
        spec_a_star_from(g, queue, best, max_cost, target, max_depth)->0.len() <= best->0.len(),
    decreases usize::MAX - g.nodes.len() + queue.dom().len(),
{
    if !g.wf() || !spec_queue_ok(queue, g.len()) || queue.dom().len() == 0 || !spec_is_top(queue, spec_top(queue)) {
    } else {
        let ind = spec_top(queue);
        let cost = g.nodes[ind as int].cost;
        let deeper = match max_cost {
            Some(seen) => cost > seen,
            None => true,
        };
        let too_deep = deeper && match max_depth {
            Some(cap) => cost > cap,
            None => false,
        };
        let optimal = match best {
            Some(sol) => usize::MAX - queue[ind].0 > sol.len(),
            None => false,
        };
        if !(too_deep || optimal) {
            let grown = g.spec_expand(ind as int, target);
            let rest = queue.remove(ind);
            let pushed = spec_push_new(grown, rest, best, target, g.len() as int, grown.len() as int);
            assert(queue[ind].2 == usize::MAX - ind);
            g.lemma_expand_wf(ind as int, target);
            lemma_queue_remove(queue, g.len(), ind, grown.len());
            lemma_push_new(grown, rest, best, target, g.len() as int, grown.len() as int);
            lemma_push_keeps(grown, rest, best, target, g.len() as int, grown.len() as int);
            lemma_from_keeps(
                grown,
                pushed.0,
                pushed.1,
                if deeper {
                    Some(cost as usize)
                } else {
                    max_cost
                },
                target,
                max_depth,
            );
        }
    }
}

/// Where one allowed gate leads from the start to the target, the best-first
/// search finds a solution of one gate at most.
pub proof fn lemma_a_star_one_gate<V: AStarValue>(start: V, target: V, moves: Seq<CX>, max_depth: Option<usize>)
    requires
        start.spec_valid(),
        forall|k: int| 0 <= k < moves.len() ==> GraphModel::<V>::gate_ok(#[trigger] moves[k]),
        spec_one_gate_away(start, target, moves),
    ensures
        spec_a_star(start, target, moves, max_depth) is Some,
        spec_a_star(start, target, moves, max_depth)->0.len() <= 1,
{
    let g = GraphModel::<V>::spec_new(start, spec_dedup(moves));
    let key = spec_queue_key(spec_estimate(g, 0, target), 0, 0);
    let queue = Map::<usize, (usize, usize, usize)>::empty().insert(0usize, key);
    GraphModel::<V>::lemma_new_wf(start, moves);
    assert(queue.dom() =~= set![0usize]);
    assert(spec_queue_ok(queue, g.len()));
    assert(spec_is_top(queue, 0usize));
    let ind = spec_top(queue);
    assert(queue.dom().contains(ind));
    assert(ind == 0);
    assert(g.node_ok(0));
    let grown = g.spec_expand(0, target);
    let rest = queue.remove(ind);
    let pushed = spec_push_new(grown, rest, None, target, 1, grown.len() as int);
    g.lemma_expand_wf(0, target);
    let k = choose|k: int| 0 <= k < moves.len() && start.spec_cx((#[trigger] moves[k]).ctrl, moves[k].tgt) == target;
    lemma_dedup(moves);
    assert(moves.contains(moves[k]));
    let j = choose|j: int| 0 <= j < g.moves.len() && g.moves[j] == moves[k];
    g.lemma_expand_root_reaches(target, j);
    let c = choose|c: int| 0 <= c < grown.values.len() && #[trigger] grown.values[c] == target;
    assert(grown.values[0] == start);
    g.lemma_expand_root_paths(target, c);
    lemma_push_finds(grown, rest, None, target, 1, grown.len() as int, c);
    lemma_from_keeps(grown, pushed.0, pushed.1, Some(0usize), target, max_depth);
    assert(spec_a_star(start, target, moves, max_depth) == spec_a_star_from(
        grown,
        pushed.0,
        pushed.1,
        Some(0usize),
        target,
        max_depth,
    ));
}

/// Where one allowed gate leads from the identity to the target, both searches
/// find a circuit, and the solution of the best-first search is no longer than
/// the circuit that the search from both ends finds.
pub proof fn lemma_one_gate_no_longer(
    target: CXCircuit16,
    pairs: Seq<(usize, usize)>,
    max_depth: Option<usize>,
    max_steps: nat,
)
    requires
        forall|k: int| 0 <= k < pairs.len() ==> spec_valid_pair(#[trigger] pairs[k]),
        pairs.len() <= usize::MAX,
        spec_one_gate_away(CXCircuit16::spec_new(), target, spec_gates_of_pairs(pairs)),
        max_steps >= 1,
    ensures
        ({
            let by_mitm = spec_mitm_bfs(target, spec_moves_of_pairs(pairs), max_steps, true);
            let by_a_star = spec_a_star(CXCircuit16::spec_new(), target, spec_gates_of_pairs(pairs), max_depth);
            by_a_star is Some && (by_mitm matches Ok(Some(ids)) && by_a_star->0.len() <= ids.len())
        }),
{
    let root = CXCircuit16::spec_new();
    let gates = spec_gates_of_pairs(pairs);
    let moves = spec_moves_of_pairs(pairs);
    assert forall|k: int| 0 <= k < gates.len() implies GraphModel::<CXCircuit16>::gate_ok(#[trigger] gates[k]) by {
        assert(spec_valid_pair(pairs[k]));
    }
    crate::invertible::lemma_identity_independent();
    CXCircuit16::lemma_of_rows(crate::cx_circuit::spec_identity());
    lemma_a_star_one_gate(root, target, gates, max_depth);
    let k = choose|k: int| 0 <= k < gates.len() && root.spec_cx((#[trigger] gates[k]).ctrl, gates[k].tgt) == target;
    let other = seq![k as usize];
    assert(spec_gates_of(other, pairs) =~= seq![gates[k]]);
    assert(seq![gates[k]].drop_last() =~= Seq::<CX>::empty());
    assert(spec_replay(root, seq![gates[k]]) == spec_replay(root, seq![gates[k]].drop_last()).spec_cx(
        gates[k].ctrl,
        gates[k].tgt,
    ));
    lemma_searches_complete(target, moves, pairs, max_steps, true, other);
    lemma_mitm_bfs_sound(target, moves, pairs, max_steps, true);
    let ids = spec_mitm_bfs(target, moves, max_steps, true)->Ok_0->0;
    if ids.len() == 0 {
        assert(spec_gates_of(ids, pairs) =~= Seq::<CX>::empty());
    }
}

/// For a target that is not the identity, the search from both ends finds a
/// circuit that is no longer than any circuit of the allowed gates of at most
/// twice its rounds. So the best-first search, whose circuits are of this
/// kind, finds no shorter one, and one as short only where it finds a shortest.
pub proof fn lemma_mitm_no_longer(
    target: CXCircuit16,
    pairs: Seq<(usize, usize)>,
    max_steps: nat,
    extrapolate: bool,
    solution: Seq<CX>,
)
    requires
        forall|k: int| 0 <= k < pairs.len() ==> spec_valid_pair(#[trigger] pairs[k]),
        pairs.len() <= usize::MAX,
        target != CXCircuit16::spec_new(),
        forall|k: int| 0 <= k < solution.len() ==> spec_gates_of_pairs(pairs).contains(#[trigger] solution[k]),
        spec_replay(CXCircuit16::spec_new(), solution) == target,
        solution.len() <= 2 * max_steps,
    ensures
        spec_mitm_bfs(target, spec_moves_of_pairs(pairs), max_steps, extrapolate) matches Ok(Some(ids)) && ids.len()
            <= solution.len(),
{
    let gates = spec_gates_of_pairs(pairs);
    let moves = spec_moves_of_pairs(pairs);
    let other = Seq::new(
        solution.len(),
        |k: int| choose|j: usize| j < pairs.len() && gates[j as int] == solution[k],
    );
    assert forall|k: int| 0 <= k < other.len() implies (#[trigger] other[k]) < pairs.len() && gates[other[k] as int]
        == solution[k] by {
        assert(gates.contains(solution[k]));
        let i = choose|i: int| 0 <= i < gates.len() && gates[i] == solution[k];
        let j = i as usize;
        assert(j < pairs.len() && gates[j as int] == solution[k]);
    }
    assert(spec_gates_of(other, pairs) =~= solution);
    lemma_searches_complete(target, moves, pairs, max_steps, extrapolate, other);
    lemma_mitm_shortest_circuit(target, moves, pairs, max_steps, extrapolate, other);
}

} // verus!
