//! What the breadth-first searches find, with moves that are single gates, is a
//! circuit for the target.

use vstd::prelude::*;
use crate::a_star::AStarValue;
use crate::bfs::{
    spec_apply_moves, spec_backtrack, spec_bfs, spec_extrapolate, spec_ids_below, spec_meet, spec_mitm_bfs,
    spec_moves_found, spec_search, spec_start, spec_step,
};
use crate::circ_moves::{spec_get, spec_has};
use crate::column_ops::{
    lemma_all_len, lemma_col_all_row_all, lemma_move_is_col_cx, spec_col_all, spec_col_cx, spec_row_all,
    spec_valid_gates,
};
use crate::cx::CX;
use crate::cx_circuit::{spec_identity, CXCircuit, CXCircuit16};
use crate::rows::{spec_add_cx, spec_mult_transpose, spec_transpose};
use crate::a_star::graph::spec_replay;
use crate::synth::spec_valid_pair;

verus! {

/// Whether `moves` are the moves of the gates `pairs`: for each pair the
/// transpose of the circuit of its one gate.
pub open spec fn spec_is_moves(moves: Seq<CXCircuit16>, pairs: Seq<(usize, usize)>) -> bool {
    spec_valid_gates(pairs) && moves == crate::synth::spec_moves_of_pairs(pairs)
}

/// The pairs at the positions `ids`.
pub open spec fn spec_pairs_of(ids: Seq<usize>, pairs: Seq<(usize, usize)>) -> Seq<(usize, usize)> {
    Seq::new(ids.len(), |k: int| pairs[ids[k] as int])
}

/// The gates at the positions `ids`.
pub open spec fn spec_gates_of(ids: Seq<usize>, pairs: Seq<(usize, usize)>) -> Seq<CX> {
    Seq::new(ids.len(), |k: int| CX { ctrl: pairs[ids[k] as int].0 as u8, tgt: pairs[ids[k] as int].1 as u8 })
}

/// A move composed with a circuit adds a column of its matrix to another.
pub proof fn lemma_move_view(x: CXCircuit16, moves: Seq<CXCircuit16>, pairs: Seq<(usize, usize)>, m: int)
    requires
        spec_is_moves(moves, pairs),
        0 <= m < moves.len(),
    ensures
        x.spec_mult_transpose(&moves[m])@ == spec_col_cx(x@, pairs[m].0 as int, pairs[m].1 as int),
{
    let a = pairs[m].0 as int;
    let b = pairs[m].1 as int;
    assert(spec_valid_pair(pairs[m]));
    CXCircuit16::lemma_of_rows(spec_identity());
    CXCircuit16::lemma_of_rows(spec_add_cx(spec_identity(), a, b));
    CXCircuit16::lemma_of_rows(spec_transpose(spec_add_cx(spec_identity(), a, b)));
    let mv = moves[m];
    assert(mv@ == spec_transpose(spec_add_cx(spec_identity(), a, b)));
    CXCircuit16::lemma_of_rows(spec_mult_transpose(x@, mv@));
    x.lemma_len();
    lemma_move_is_col_cx(x@, a, b);
}

/// The moves of single gates undo themselves.
pub proof fn lemma_gate_moves_undo(moves: Seq<CXCircuit16>, pairs: Seq<(usize, usize)>)
    requires
        spec_is_moves(moves, pairs),
    ensures
        crate::bfs_ways::spec_self_undoing(moves),
{
    lemma_is_gate_moves(moves, pairs);
    crate::bfs_circuits::lemma_gate_moves_self_undoing(moves, pairs);
}

/// With the moves of single gates, neither search loses its way back: each ends
/// with a circuit or with none.
pub proof fn lemma_gate_searches_ok(
    target: CXCircuit16,
    moves: Seq<CXCircuit16>,
    pairs: Seq<(usize, usize)>,
    max_steps: nat,
    extrapolate: bool,
)
    requires
        spec_is_moves(moves, pairs),
        moves.len() <= usize::MAX,
    ensures
        spec_bfs(target, moves, max_steps) is Ok,
        spec_mitm_bfs(target, moves, max_steps, extrapolate) is Ok,
{
    lemma_gate_moves_undo(moves, pairs);
    crate::bfs_ways::lemma_bfs_ok(target, moves, max_steps);
    crate::bfs_ways::lemma_mitm_ok(target, moves, max_steps, extrapolate);
}

/// The circuit of a list of gates followed by one more gate.
pub proof fn lemma_row_all_push(rows: Seq<u16>, gates: Seq<(usize, usize)>, g: (usize, usize))
    ensures
        spec_row_all(rows, gates.push(g)) == spec_add_cx(spec_row_all(rows, gates), g.0 as int, g.1 as int),
    decreases gates.len(),
{
    let longer = gates.push(g);
    if gates.len() == 0 {
        assert(longer[0] == g);
        assert(longer.drop_first() =~= Seq::empty());
        assert(spec_row_all(rows, longer) == spec_row_all(
            spec_add_cx(rows, g.0 as int, g.1 as int),
            longer.drop_first(),
        ));
    } else {
        assert(longer[0] == gates[0]);
        assert(longer.drop_first() =~= gates.drop_first().push(g));
        lemma_row_all_push(spec_add_cx(rows, gates[0].0 as int, gates[0].1 as int), gates.drop_first(), g);
    }
}

/// The column operations of a list of gates followed by one more.
pub proof fn lemma_col_all_push(rows: Seq<u16>, gates: Seq<(usize, usize)>, g: (usize, usize))
    ensures
        spec_col_all(rows, gates.push(g)) == spec_col_cx(spec_col_all(rows, gates), g.0 as int, g.1 as int),
    decreases gates.len(),
{
    let longer = gates.push(g);
    if gates.len() == 0 {
        assert(longer[0] == g);
        assert(longer.drop_first() =~= Seq::empty());
        assert(spec_col_all(rows, longer) == spec_col_all(
            spec_col_cx(rows, g.0 as int, g.1 as int),
            longer.drop_first(),
        ));
    } else {
        assert(longer[0] == gates[0]);
        assert(longer.drop_first() =~= gates.drop_first().push(g));
        lemma_col_all_push(spec_col_cx(rows, gates[0].0 as int, gates[0].1 as int), gates.drop_first(), g);
    }
}

/// The circuit that moves lead to from a circuit has the rows of that circuit
/// after the column operations of their gates.
pub proof fn lemma_walk_cols(root: CXCircuit16, moves: Seq<CXCircuit16>, pairs: Seq<(usize, usize)>, way: Seq<usize>)
    requires
        spec_is_moves(moves, pairs),
        spec_ids_below(way, pairs.len() as int),
    ensures
        crate::bfs_layers::spec_walk(root, moves, way)@ == spec_col_all(root@, spec_pairs_of(way, pairs)),
    decreases way.len(),
{
    if way.len() > 0 {
        let front = way.drop_last();
        assert forall|k: int| 0 <= k < front.len() implies (#[trigger] front[k]) < pairs.len() by {
            assert(front[k] == way[k]);
        }
        lemma_walk_cols(root, moves, pairs, front);
        let m = way.last();
        assert(way[way.len() - 1] < pairs.len());
        lemma_move_view(crate::bfs_layers::spec_walk(root, moves, front), moves, pairs, m as int);
        assert(spec_pairs_of(way, pairs) =~= spec_pairs_of(front, pairs).push(pairs[m as int]));
        lemma_col_all_push(root@, spec_pairs_of(front, pairs), pairs[m as int]);
    } else {
        assert(spec_pairs_of(way, pairs) =~= Seq::empty());
    }
}

/// The moves of the gates of a circuit, last gate first, lead from the identity
/// to the circuit.
pub proof fn lemma_circuit_walk(
    target: CXCircuit16,
    moves: Seq<CXCircuit16>,
    pairs: Seq<(usize, usize)>,
    other: Seq<usize>,
)
    requires
        spec_is_moves(moves, pairs),
        spec_ids_below(other, pairs.len() as int),
        spec_replay(CXCircuit16::spec_new(), spec_gates_of(other, pairs)) == target,
    ensures
        spec_ids_below(other.reverse(), moves.len() as int),
        crate::bfs_layers::spec_walk(CXCircuit16::spec_new(), moves, other.reverse()) == target,
{
    let root = CXCircuit16::spec_new();
    let way = other.reverse();
    assert forall|k: int| 0 <= k < way.len() implies (#[trigger] way[k]) < pairs.len() by {
        assert(way[k] == other[other.len() - 1 - k]);
    }
    lemma_walk_cols(root, moves, pairs, way);
    CXCircuit16::lemma_of_rows(spec_identity());
    let cols = spec_pairs_of(way, pairs);
    assert forall|k: int| 0 <= k < cols.len() implies spec_valid_pair(#[trigger] cols[k]) by {
        assert(way[k] < pairs.len());
    }
    let none = Seq::<(usize, usize)>::empty();
    lemma_col_all_row_all(cols, none);
    assert(cols.reverse() + none =~= spec_pairs_of(other, pairs));
    lemma_replay_rows(root, other, pairs);
    crate::bfs_layers::spec_walk(root, moves, way).lemma_view_injective(&target);
}

/// The circuit that moves lead to from the identity, taken backwards, is a
/// circuit of gates for it.
pub proof fn lemma_walk_circuit(
    target: CXCircuit16,
    moves: Seq<CXCircuit16>,
    pairs: Seq<(usize, usize)>,
    way: Seq<usize>,
)
    requires
        spec_is_moves(moves, pairs),
        spec_ids_below(way, pairs.len() as int),
        crate::bfs_layers::spec_walk(CXCircuit16::spec_new(), moves, way) == target,
    ensures
        spec_ids_below(way.reverse(), pairs.len() as int),
        spec_replay(CXCircuit16::spec_new(), spec_gates_of(way.reverse(), pairs)) == target,
{
    let root = CXCircuit16::spec_new();
    let other = way.reverse();
    assert forall|k: int| 0 <= k < other.len() implies (#[trigger] other[k]) < pairs.len() by {
        assert(other[k] == way[way.len() - 1 - k]);
    }
    lemma_walk_cols(root, moves, pairs, way);
    CXCircuit16::lemma_of_rows(spec_identity());
    let cols = spec_pairs_of(way, pairs);
    assert forall|k: int| 0 <= k < cols.len() implies spec_valid_pair(#[trigger] cols[k]) by {
        assert(way[k] < pairs.len());
    }
    let none = Seq::<(usize, usize)>::empty();
    lemma_col_all_row_all(cols, none);
    assert(cols.reverse() + none =~= spec_pairs_of(other, pairs));
    lemma_replay_rows(root, other, pairs);
    spec_replay(root, spec_gates_of(other, pairs)).lemma_view_injective(&target);
}

/// With the moves of single gates, a circuit composed with the circuit that
/// moves lead to from the identity is the circuit that these moves lead to
/// from the first.
pub proof fn lemma_gate_products_walk(moves: Seq<CXCircuit16>, pairs: Seq<(usize, usize)>)
    requires
        spec_is_moves(moves, pairs),
    ensures
        crate::mitm_beyond::spec_products_walk(moves),
{
    lemma_is_gate_moves(moves, pairs);
    crate::bfs_circuits::lemma_products_walk(moves, pairs);
}

/// With the moves of single gates, the search from both ends, which also looks
/// beyond its layers, finds a shortest circuit for a target that is not the
/// identity wherever a circuit of at most three times its rounds exists: where
/// `other` is a circuit for the target of the least number of gates, the search
/// finds a circuit of that number of gates.
pub proof fn lemma_mitm_finds_shortest(
    target: CXCircuit16,
    moves: Seq<CXCircuit16>,
    pairs: Seq<(usize, usize)>,
    max_steps: nat,
    other: Seq<usize>,
)
    requires
        spec_is_moves(moves, pairs),
        moves.len() <= usize::MAX,
        target != CXCircuit16::spec_new(),
        spec_ids_below(other, pairs.len() as int),
        spec_replay(CXCircuit16::spec_new(), spec_gates_of(other, pairs)) == target,
        forall|any: Seq<usize>|
            spec_ids_below(any, pairs.len() as int) && #[trigger] spec_replay(
                CXCircuit16::spec_new(),
                spec_gates_of(any, pairs),
            ) == target ==> any.len() >= other.len(),
        other.len() <= 3 * max_steps,
    ensures
        spec_mitm_bfs(target, moves, max_steps, true) matches Ok(Some(ids)) && ids.len() == other.len(),
{
    let root = CXCircuit16::spec_new();
    let way = other.reverse();
    lemma_gate_moves_undo(moves, pairs);
    lemma_gate_products_walk(moves, pairs);
    lemma_circuit_walk(target, moves, pairs, other);
    assert forall|any: Seq<usize>|
        spec_ids_below(any, moves.len() as int) && #[trigger] crate::bfs_layers::spec_walk(root, moves, any)
            == target implies any.len() >= way.len() by {
        lemma_walk_circuit(target, moves, pairs, any);
        assert(spec_replay(root, spec_gates_of(any.reverse(), pairs)) == target);
    }
    if other.len() <= 2 * max_steps {
        crate::mitm_shortest::lemma_mitm_complete(target, moves, max_steps, true, way);
        crate::mitm_shortest::lemma_mitm_shortest(target, moves, max_steps, true, way);
        lemma_mitm_bfs_sound(target, moves, pairs, max_steps, true);
        let ids = spec_mitm_bfs(target, moves, max_steps, true)->Ok_0->0;
        assert(spec_replay(root, spec_gates_of(ids, pairs)) == target);
    } else {
        crate::mitm_beyond::lemma_mitm_beyond(target, moves, max_steps, way);
    }
}

/// With the moves of single gates, the search from the identity alone finds a
/// shortest circuit: no circuit of the gates of `pairs` for the target has
/// fewer gates than the circuit that the search finds.
pub proof fn lemma_bfs_shortest_circuit(
    target: CXCircuit16,
    moves: Seq<CXCircuit16>,
    pairs: Seq<(usize, usize)>,
    max_steps: nat,
    other: Seq<usize>,
)
    requires
        spec_is_moves(moves, pairs),
        moves.len() <= usize::MAX,
        spec_bfs(target, moves, max_steps) matches Ok(Some(_)),
        spec_ids_below(other, pairs.len() as int),
        spec_replay(CXCircuit16::spec_new(), spec_gates_of(other, pairs)) == target,
    ensures
        spec_bfs(target, moves, max_steps) matches Ok(Some(ids)) && ids.len() <= other.len(),
{
    lemma_gate_moves_undo(moves, pairs);
    lemma_circuit_walk(target, moves, pairs, other);
    crate::bfs_layers::lemma_bfs_shortest(target, moves, max_steps, other.reverse());
}

/// With the moves of single gates, either search finds a circuit for a target
/// that is not the identity wherever a circuit of the gates of `pairs` exists
/// that is short enough: of no more gates than the steps of the search from
/// the identity alone, or than twice the steps of the search from both ends.
pub proof fn lemma_searches_complete(
    target: CXCircuit16,
    moves: Seq<CXCircuit16>,
    pairs: Seq<(usize, usize)>,
    max_steps: nat,
    extrapolate: bool,
    other: Seq<usize>,
)
    requires
        spec_is_moves(moves, pairs),
        moves.len() <= usize::MAX,
        target != CXCircuit16::spec_new(),
        spec_ids_below(other, pairs.len() as int),
        spec_replay(CXCircuit16::spec_new(), spec_gates_of(other, pairs)) == target,
    ensures
        other.len() <= max_steps ==> spec_bfs(target, moves, max_steps) matches Ok(Some(_)),
        other.len() <= 2 * max_steps ==> spec_mitm_bfs(target, moves, max_steps, extrapolate) matches Ok(Some(_)),
        other.len() <= 2 * max_steps ==> spec_meet(
            spec_start(CXCircuit16::spec_new()),
            spec_start(target),
            moves,
            max_steps,
        ).0 is Some,
{
    lemma_gate_moves_undo(moves, pairs);
    lemma_circuit_walk(target, moves, pairs, other);
    if other.len() <= max_steps {
        crate::bfs_layers::lemma_bfs_complete(target, moves, max_steps, other.reverse());
    }
    if other.len() <= 2 * max_steps {
        crate::mitm_shortest::lemma_mitm_complete(target, moves, max_steps, extrapolate, other.reverse());
    }
}

/// With the moves of single gates, the search from both ends finds a shortest
/// circuit where its two searches meet: no circuit of the gates of `pairs` for
/// a target that is not the identity has fewer gates than the circuit that it
/// finds.
pub proof fn lemma_mitm_shortest_circuit(
    target: CXCircuit16,
    moves: Seq<CXCircuit16>,
    pairs: Seq<(usize, usize)>,
    max_steps: nat,
    extrapolate: bool,
    other: Seq<usize>,
)
    requires
        spec_is_moves(moves, pairs),
        moves.len() <= usize::MAX,
        target != CXCircuit16::spec_new(),
        spec_meet(spec_start(CXCircuit16::spec_new()), spec_start(target), moves, max_steps).0 is Some,
        spec_ids_below(other, pairs.len() as int),
        spec_replay(CXCircuit16::spec_new(), spec_gates_of(other, pairs)) == target,
    ensures
        spec_mitm_bfs(target, moves, max_steps, extrapolate) matches Ok(Some(ids)) && ids.len() <= other.len(),
{
    lemma_gate_moves_undo(moves, pairs);
    lemma_circuit_walk(target, moves, pairs, other);
    crate::mitm_shortest::lemma_mitm_shortest(target, moves, max_steps, extrapolate, other.reverse());
}

/// Replaying the gates at the positions `ids` on a circuit gives the rows after
/// the pairs at these positions.
pub proof fn lemma_replay_rows(c: CXCircuit16, ids: Seq<usize>, pairs: Seq<(usize, usize)>)
    requires
        spec_valid_gates(pairs),
        spec_ids_below(ids, pairs.len() as int),
    ensures
        spec_replay(c, spec_gates_of(ids, pairs))@ == spec_row_all(c@, spec_pairs_of(ids, pairs)),
    decreases ids.len(),
{
    let gates = spec_gates_of(ids, pairs);
    let list = spec_pairs_of(ids, pairs);
    if ids.len() == 0 {
    } else {
        let front = ids.drop_last();
        assert forall|k: int| 0 <= k < front.len() implies (#[trigger] front[k]) < pairs.len() by {
            assert(front[k] == ids[k]);
        }
        lemma_replay_rows(c, front, pairs);
        assert(gates.drop_last() =~= spec_gates_of(front, pairs));
        assert(list.drop_last() =~= spec_pairs_of(front, pairs));
        let g = list.last();
        assert(ids[ids.len() - 1] < pairs.len());
        assert(spec_valid_pair(pairs[ids[ids.len() - 1] as int]));
        assert(list =~= list.drop_last().push(g));
        lemma_row_all_push(c@, list.drop_last(), g);
        let before = spec_replay(c, gates.drop_last());
        before.lemma_len();
        lemma_all_len(c@, list.drop_last());
        CXCircuit16::lemma_of_rows(spec_add_cx(before@, g.0 as int, g.1 as int));
        assert(gates.last().ctrl as int == g.0 as int);
        assert(gates.last().tgt as int == g.1 as int);
    }
}

/// The moves of single gates, on sixteen qubits, are moves of single gates.
pub proof fn lemma_is_gate_moves(moves: Seq<CXCircuit16>, pairs: Seq<(usize, usize)>)
    requires
        spec_is_moves(moves, pairs),
    ensures
        crate::bfs_circuits::spec_gate_moves(moves, pairs),
{
    assert forall|k: int| 0 <= k < pairs.len() implies {
        &&& (#[trigger] pairs[k]).0 < CXCircuit16::num_qubits()
        &&& pairs[k].1 < CXCircuit16::num_qubits()
        &&& pairs[k].0 != pairs[k].1
        &&& moves[k] == CXCircuit16::spec_new().spec_add_cx(pairs[k].0 as int, pairs[k].1 as int).spec_transpose()
    } by {
        assert(spec_valid_pair(pairs[k]));
    }
}

/// Replaying the gates at the positions `ids` on the identity gives the
/// circuit of the pairs at these positions.
pub proof fn lemma_replay_is_circuit(moves: Seq<CXCircuit16>, pairs: Seq<(usize, usize)>, ids: Seq<usize>)
    requires
        spec_is_moves(moves, pairs),
        spec_ids_below(ids, pairs.len() as int),
    ensures
        spec_replay(CXCircuit16::spec_new(), spec_gates_of(ids, pairs)) == CXCircuit16::spec_from_cxs(
            spec_pairs_of(ids, pairs),
        ),
{
    let way = ids.reverse();
    assert forall|k: int| 0 <= k < way.len() implies (#[trigger] way[k]) < pairs.len() by {
        assert(way[k] == ids[ids.len() - 1 - k]);
    }
    let made = crate::bfs_layers::spec_walk(CXCircuit16::spec_new(), moves, way);
    lemma_walk_circuit(made, moves, pairs, way);
    lemma_is_gate_moves(moves, pairs);
    crate::bfs_circuits::lemma_walk_is_circuit(moves, pairs, way);
    assert(way.reverse() =~= ids);
}

/// What the search from the identity alone finds, with moves that are single
/// gates, is a circuit for the target: replaying its gates on the identity
/// gives the target.
pub proof fn lemma_bfs_sound(target: CXCircuit16, moves: Seq<CXCircuit16>, pairs: Seq<(usize, usize)>, max_steps: nat)
    requires
        spec_is_moves(moves, pairs),
        moves.len() <= usize::MAX,
        spec_bfs(target, moves, max_steps) matches Ok(Some(_)),
    ensures
        spec_bfs(target, moves, max_steps) matches Ok(Some(ids)) && spec_ids_below(ids, pairs.len() as int)
            && spec_replay(CXCircuit16::spec_new(), spec_gates_of(ids, pairs)) == target,
{
    lemma_is_gate_moves(moves, pairs);
    crate::bfs_circuits::lemma_bfs_circuit(target, moves, pairs, max_steps);
    lemma_replay_is_circuit(moves, pairs, spec_bfs(target, moves, max_steps)->Ok_0->0);
}

/// What the search from both ends finds, with moves that are single gates, is a
/// circuit for the target, whether the two searches met or the result was found
/// beyond their layers: replaying its gates on the identity gives the target.
pub proof fn lemma_mitm_bfs_sound(
    target: CXCircuit16,
    moves: Seq<CXCircuit16>,
    pairs: Seq<(usize, usize)>,
    max_steps: nat,
    extrapolate: bool,
)
    requires
        spec_is_moves(moves, pairs),
        moves.len() <= usize::MAX,
        spec_mitm_bfs(target, moves, max_steps, extrapolate) matches Ok(Some(_)),
    ensures
        spec_mitm_bfs(target, moves, max_steps, extrapolate) matches Ok(Some(ids)) && spec_ids_below(
            ids,
            pairs.len() as int,
        ) && spec_replay(CXCircuit16::spec_new(), spec_gates_of(ids, pairs)) == target,
{
    lemma_is_gate_moves(moves, pairs);
    crate::bfs_circuits::lemma_mitm_circuit(target, moves, pairs, max_steps, extrapolate);
    lemma_replay_is_circuit(moves, pairs, spec_mitm_bfs(target, moves, max_steps, extrapolate)->Ok_0->0);
}

/// The way back through `d` layers notes `d` moves at most.
pub proof fn lemma_backtrack_len<T: CXCircuit>(
    acc: Seq<usize>,
    layers: Seq<Seq<(T, usize)>>,
    moves: Seq<T>,
    curr: T,
    d: int,
)
    requires
        0 <= d,
    ensures
        spec_backtrack(acc, layers, moves, curr, d).0.len() <= acc.len() + d,
    decreases d,
{
    if d > 0 {
        match spec_get(layers[d], curr) {
            Some(m) => {
                lemma_backtrack_len(acc.push(m), layers, moves, curr.spec_mult_transpose(&moves[m as int]), d - 1);
            },
            None => {
                lemma_backtrack_len(acc, layers, moves, curr, d - 1);
            },
        }
    }
}

/// A search with `steps` steps left, from layers that `made` steps made, finds
/// no more than `made + steps` moves.
pub proof fn lemma_search_len<T: CXCircuit>(layers: Seq<Seq<(T, usize)>>, moves: Seq<T>, target: T, steps: nat)
    requires
        layers.len() >= 1,
        spec_moves_found(spec_search(layers, moves, target, steps)) is Some,
    ensures
        spec_moves_found(spec_search(layers, moves, target, steps))->0.len() <= layers.len() - 1 + steps,
    decreases steps,
{
    if steps > 0 {
        let grown = spec_step(layers, moves);
        if spec_has(grown.last(), target) {
            lemma_backtrack_len(Seq::empty(), grown, moves, target, grown.len() - 1);
        } else {
            lemma_search_len(grown, moves, target, (steps - 1) as nat);
        }
    }
}

/// What `bfs` finds has no more than `max_steps` moves.
pub proof fn lemma_bfs_len<T: CXCircuit>(target: T, moves: Seq<T>, max_steps: nat)
    requires
        spec_moves_found(spec_bfs(target, moves, max_steps)) is Some,
    ensures
        spec_moves_found(spec_bfs(target, moves, max_steps))->0.len() <= max_steps,
{
    lemma_search_len(spec_start(T::spec_new()), moves, target, max_steps);
}

/// Each round of the two searches adds one layer at most to each.
pub proof fn lemma_meet_len<T: CXCircuit>(
    forward: Seq<Seq<(T, usize)>>,
    backward: Seq<Seq<(T, usize)>>,
    moves: Seq<T>,
    rounds: nat,
)
    requires
        forward.len() >= 1,
        backward.len() >= 1,
    ensures
        1 <= spec_meet(forward, backward, moves, rounds).1.len() <= forward.len() + rounds,
        1 <= spec_meet(forward, backward, moves, rounds).2.len() <= backward.len() + rounds,
    decreases rounds,
{
    if rounds > 0 {
        lemma_meet_len(spec_step(forward, moves), spec_step(backward, moves), moves, (rounds - 1) as nat);
    }
}

/// The search beyond the stored layers finds a circuit of three ways back.
pub proof fn lemma_extrapolate_len<T: CXCircuit>(
    forward: Seq<Seq<(T, usize)>>,
    backward: Seq<Seq<(T, usize)>>,
    moves: Seq<T>,
    extra: int,
)
    requires
        forward.len() >= 1,
        backward.len() >= 1,
        spec_moves_found(spec_extrapolate(forward, backward, moves, extra)) is Some,
    ensures
        spec_moves_found(spec_extrapolate(forward, backward, moves, extra))->0.len() <= 2 * (forward.len() - 1) + (backward.len() - 1),
    decreases forward.len() - extra,
{
    if extra < 1 || extra >= forward.len() {
    } else {
        match spec_apply_moves(forward.last(), forward[extra], backward.last(), 0, 0) {
            Some((i, j)) => {
                let first = forward.last()[i].0;
                let mid = forward[extra][j].0;
                let made = first.spec_mult_transpose(&mid.spec_transpose());
                lemma_backtrack_len(Seq::empty(), backward, moves, made, backward.len() - 1);
                lemma_backtrack_len(Seq::empty(), forward, moves, mid, forward.len() - 1);
                lemma_backtrack_len(Seq::empty(), forward, moves, first, forward.len() - 1);
            },
            None => {
                lemma_extrapolate_len(forward, backward, moves, extra + 1);
            },
        }
    }
}

/// What `mitm_bfs` finds has no more than twice `max_steps` moves, and no more
/// than three times `max_steps` where it searches beyond the stored layers.
pub proof fn lemma_mitm_len<T: CXCircuit>(target: T, moves: Seq<T>, max_steps: nat, extrapolate: bool)
    requires
        spec_moves_found(spec_mitm_bfs(target, moves, max_steps, extrapolate)) is Some,
    ensures
        spec_moves_found(spec_mitm_bfs(target, moves, max_steps, extrapolate))->0.len() <= 3 * max_steps,
        !extrapolate ==> spec_moves_found(spec_mitm_bfs(target, moves, max_steps, extrapolate))->0.len() <= 2 * max_steps,
{
    let forward0 = spec_start(T::spec_new());
    let backward0 = spec_start(target);
    lemma_meet_len(forward0, backward0, moves, max_steps);
    let met = spec_meet(forward0, backward0, moves, max_steps);
    match met.0 {
        Some(circ) => {
            lemma_backtrack_len(Seq::empty(), met.2, moves, circ, met.2.len() - 1);
            lemma_backtrack_len(Seq::empty(), met.1, moves, circ, met.1.len() - 1);
        },
        None => {
            lemma_extrapolate_len(met.1, met.2, moves, 1);
        },
    }
}

/// The search from both ends, from the identity, never ends with a circuit that
/// fails the replay.
pub proof fn lemma_mitm_search_correct(target: CXCircuit16, pairs: Seq<(usize, usize)>, max_depth: usize)
    requires
        spec_valid_gates(pairs),
        pairs.len() <= usize::MAX,
    ensures
        !(crate::synth::spec_checked(
            crate::synth::spec_found_by(
                crate::synth::SearchAlgorithm::MITM,
                crate::synth::CircuitOrStabiliser::Circuit(CXCircuit16::spec_new()),
                crate::synth::CircuitOrStabiliser::Circuit(target),
                pairs,
                max_depth,
            ),
            crate::synth::CircuitOrStabiliser::Circuit(CXCircuit16::spec_new()),
            crate::synth::CircuitOrStabiliser::Circuit(target),
        ) is Incorrect),
{
    let root = CXCircuit16::spec_new();
    let moves = crate::synth::spec_moves_of_pairs(pairs);
    match spec_mitm_bfs(target, moves, max_depth as nat, true) {
        Ok(Some(ids)) => {
            lemma_mitm_bfs_sound(target, moves, pairs, max_depth as nat, true);
            crate::synth::lemma_replay_circuit(root, spec_gates_of(ids, pairs));
        },
        _ => {},
    }
}

} // verus!
