//! The way back through the layers of a search ends at its root, where a move
//! made twice changes nothing: every circuit of a layer then leads, by its
//! move, to a circuit of the layer before.

use vstd::prelude::*;
use crate::bfs::{
    spec_apply_moves, spec_backtrack, spec_backtrack_result, spec_bfs, spec_collect, spec_extrapolate, spec_intersect,
    spec_meet, spec_mitm_bfs, spec_search, spec_start, spec_step,
};
use crate::circ_moves::{spec_get, spec_has, spec_position, spec_put};
use crate::cx_circuit::CXCircuit;

verus! {

/// Whether each of the moves, made twice, changes nothing.
pub open spec fn spec_self_undoing<T: CXCircuit>(moves: Seq<T>) -> bool {
    forall|c: T, m: int|
        0 <= m < moves.len() ==> (#[trigger] c.spec_mult_transpose(&moves[m])).spec_mult_transpose(&moves[m]) == c
}

/// Whether the move of `entry` is one of `moves` and leads from its circuit to
/// a circuit of `circs`.
pub open spec fn spec_comes_from<T: CXCircuit>(entry: (T, usize), circs: Seq<(T, usize)>, moves: Seq<T>) -> bool {
    entry.1 < moves.len() && spec_has(circs, entry.0.spec_mult_transpose(&moves[entry.1 as int]))
}

/// Whether every entry of `layer` comes from `circs`.
pub open spec fn spec_layer_from<T: CXCircuit>(layer: Seq<(T, usize)>, circs: Seq<(T, usize)>, moves: Seq<T>) -> bool {
    forall|k: int| 0 <= k < layer.len() ==> spec_comes_from(#[trigger] layer[k], circs, moves)
}

/// Whether every layer but the first comes from the layer before it.
pub open spec fn spec_linked<T: CXCircuit>(layers: Seq<Seq<(T, usize)>>, moves: Seq<T>) -> bool {
    forall|d: int| 1 <= d < layers.len() ==> spec_layer_from(#[trigger] layers[d], layers[d - 1], moves)
}

/// Putting an entry that comes from `circs` keeps a layer that comes from `circs`.
pub proof fn lemma_put_from<T: CXCircuit>(layer: Seq<(T, usize)>, c: T, m: usize, circs: Seq<(T, usize)>, moves: Seq<T>)
    requires
        spec_layer_from(layer, circs, moves),
        spec_comes_from((c, m), circs, moves),
    ensures
        spec_layer_from(spec_put(layer, c, m), circs, moves),
{
    let after = spec_put(layer, c, m);
    assert forall|k: int| 0 <= k < after.len() implies spec_comes_from(#[trigger] after[k], circs, moves) by {
        if spec_has(layer, c) {
            if k != spec_position(layer, c) {
                assert(after[k] == layer[k]);
            }
        } else {
            if k < layer.len() {
                assert(after[k] == layer[k]);
            }
        }
    }
}

/// The layer that a step makes comes from the circuits it was made from.
pub proof fn lemma_collect_from<T: CXCircuit>(
    acc: Seq<(T, usize)>,
    circs: Seq<(T, usize)>,
    moves: Seq<T>,
    seen1: Seq<(T, usize)>,
    seen2: Seq<(T, usize)>,
    i: int,
    j: int,
)
    requires
        spec_self_undoing(moves),
        moves.len() <= usize::MAX,
        spec_layer_from(acc, circs, moves),
    ensures
        spec_layer_from(spec_collect(acc, circs, moves, seen1, seen2, i, j), circs, moves),
    decreases circs.len() - i, moves.len() - j,
{
    if i < 0 || j < 0 || i >= circs.len() {
    } else if j >= moves.len() {
        lemma_collect_from(acc, circs, moves, seen1, seen2, i + 1, 0);
    } else {
        let made = circs[i].0.spec_mult_transpose(&moves[j]);
        let next = if !spec_has(seen1, made) && !spec_has(seen2, made) {
            spec_put(acc, made, j as usize)
        } else {
            acc
        };
        if !spec_has(seen1, made) && !spec_has(seen2, made) {
            assert(made.spec_mult_transpose(&moves[j]) == circs[i].0);
            assert(spec_has(circs, circs[i].0));
            assert(spec_comes_from((made, j as usize), circs, moves));
            lemma_put_from(acc, made, j as usize, circs, moves);
        }
        lemma_collect_from(next, circs, moves, seen1, seen2, i, j + 1);
    }
}

/// A step keeps the layers linked.
pub proof fn lemma_step_linked<T: CXCircuit>(layers: Seq<Seq<(T, usize)>>, moves: Seq<T>)
    requires
        spec_self_undoing(moves),
        moves.len() <= usize::MAX,
        layers.len() >= 1,
        spec_linked(layers, moves),
    ensures
        spec_linked(spec_step(layers, moves), moves),
        spec_step(layers, moves).len() == layers.len() + 1,
        forall|d: int| 0 <= d < layers.len() ==> spec_step(layers, moves)[d] == layers[d],
{
    let last = layers.last();
    let before = if layers.len() > 1 {
        layers[layers.len() - 2]
    } else {
        Seq::empty()
    };
    lemma_collect_from(Seq::empty(), last, moves, last, before, 0, 0);
    let grown = spec_step(layers, moves);
    assert forall|d: int| 1 <= d < grown.len() implies spec_layer_from(#[trigger] grown[d], grown[d - 1], moves) by {
        if d < layers.len() {
            assert(grown[d] == layers[d]);
            assert(grown[d - 1] == layers[d - 1]);
            assert(spec_layer_from(layers[d], layers[d - 1], moves));
        } else {
            assert(grown[d - 1] == last);
        }
    }
}

/// From a circuit of one of the layers up to `d`, the way back from layer `d`
/// ends in the first layer; from a circuit of layer `d` itself it notes one
/// move for each layer.
pub proof fn lemma_backtrack_home<T: CXCircuit>(
    acc: Seq<usize>,
    layers: Seq<Seq<(T, usize)>>,
    moves: Seq<T>,
    curr: T,
    d: int,
    j: int,
)
    requires
        spec_linked(layers, moves),
        0 <= j <= d < layers.len(),
        spec_has(layers[j], curr),
    ensures
        spec_has(layers[0], spec_backtrack(acc, layers, moves, curr, d).1),
        j == d ==> spec_backtrack(acc, layers, moves, curr, d).0.len() == acc.len() + d,
    decreases d,
{
    if d > 0 {
        match spec_get(layers[d], curr) {
            Some(m) => {
                let p = spec_position(layers[d], curr);
                assert(spec_layer_from(layers[d], layers[d - 1], moves));
                assert(spec_comes_from(layers[d][p], layers[d - 1], moves));
                lemma_backtrack_home(
                    acc.push(m),
                    layers,
                    moves,
                    curr.spec_mult_transpose(&moves[m as int]),
                    d - 1,
                    d - 1,
                );
            },
            None => {
                lemma_backtrack_home(acc, layers, moves, curr, d - 1, j);
            },
        }
    }
}

/// The way back from a circuit of one of the layers ends at the root; from a
/// circuit of the last layer it has one move for each layer.
pub proof fn lemma_result_ok<T: CXCircuit>(layers: Seq<Seq<(T, usize)>>, moves: Seq<T>, circ: T, j: int)
    requires
        spec_linked(layers, moves),
        0 <= j < layers.len(),
        spec_has(layers[j], circ),
    ensures
        spec_backtrack_result(layers, moves, circ) is Ok,
        j == layers.len() - 1 ==> spec_backtrack_result(layers, moves, circ)->Ok_0.len() == layers.len() - 1,
{
    lemma_backtrack_home(Seq::empty(), layers, moves, circ, layers.len() - 1, j);
}

/// A search does not lose its way back: it ends with a circuit or with none.
pub proof fn lemma_search_ok<T: CXCircuit>(layers: Seq<Seq<(T, usize)>>, moves: Seq<T>, target: T, steps: nat)
    requires
        spec_self_undoing(moves),
        moves.len() <= usize::MAX,
        layers.len() >= 1,
        spec_linked(layers, moves),
    ensures
        spec_search(layers, moves, target, steps) is Ok,
    decreases steps,
{
    if steps > 0 {
        let grown = spec_step(layers, moves);
        lemma_step_linked(layers, moves);
        if spec_has(grown.last(), target) {
            lemma_result_ok(grown, moves, target, grown.len() - 1);
        } else {
            lemma_search_ok(grown, moves, target, (steps - 1) as nat);
        }
    }
}

/// With moves that undo themselves, the search from the identity alone does
/// not lose its way back.
pub proof fn lemma_bfs_ok<T: CXCircuit>(target: T, moves: Seq<T>, max_steps: nat)
    requires
        spec_self_undoing(moves),
        moves.len() <= usize::MAX,
    ensures
        spec_bfs(target, moves, max_steps) is Ok,
{
    lemma_search_ok(spec_start(T::spec_new()), moves, target, max_steps);
}

/// A circuit that two layers share is in both.
pub proof fn lemma_intersect_in<T>(a: Seq<(T, usize)>, b: Seq<(T, usize)>, i: int)
    ensures
        spec_intersect(a, b, i) matches Some(c) ==> spec_has(a, c) && spec_has(b, c),
    decreases a.len() - i,
{
    if i < 0 || i >= a.len() {
    } else if spec_has(b, a[i].0) {
    } else {
        lemma_intersect_in(a, b, i + 1);
    }
}

/// The rounds of the two searches keep their layers linked, and where they
/// meet, both last layers have the circuit.
pub proof fn lemma_meet_linked<T: CXCircuit>(
    forward: Seq<Seq<(T, usize)>>,
    backward: Seq<Seq<(T, usize)>>,
    moves: Seq<T>,
    rounds: nat,
)
    requires
        spec_self_undoing(moves),
        moves.len() <= usize::MAX,
        forward.len() >= 1,
        backward.len() >= 1,
        spec_linked(forward, moves),
        spec_linked(backward, moves),
    ensures
        ({
            let met = spec_meet(forward, backward, moves, rounds);
            &&& met.1.len() >= 1
            &&& met.2.len() >= 1
            &&& spec_linked(met.1, moves)
            &&& spec_linked(met.2, moves)
            &&& met.0 matches Some(c) ==> spec_has(met.1.last(), c) && spec_has(met.2.last(), c)
        }),
    decreases rounds,
{
    if rounds > 0 {
        let forward2 = spec_step(forward, moves);
        lemma_step_linked(forward, moves);
        lemma_intersect_in(forward2.last(), backward.last(), 0);
        if spec_intersect(forward2.last(), backward.last(), 0) is None {
            let backward2 = spec_step(backward, moves);
            lemma_step_linked(backward, moves);
            lemma_intersect_in(forward2.last(), backward2.last(), 0);
            if spec_intersect(forward2.last(), backward2.last(), 0) is None {
                lemma_meet_linked(forward2, backward2, moves, (rounds - 1) as nat);
            }
        }
    }
}

/// The pair that is found names a circuit of each list, and `back` has their product.
pub proof fn lemma_apply_moves_in<T: CXCircuit>(
    frontier: Seq<(T, usize)>,
    mids: Seq<(T, usize)>,
    back: Seq<(T, usize)>,
    i: int,
    j: int,
)
    ensures
        spec_apply_moves(frontier, mids, back, i, j) matches Some(pair) ==> {
            &&& 0 <= pair.0 < frontier.len()
            &&& 0 <= pair.1 < mids.len()
            &&& spec_has(back, frontier[pair.0].0.spec_mult_transpose(&mids[pair.1].0.spec_transpose()))
        },
    decreases frontier.len() - i, mids.len() - j,
{
    if i < 0 || j < 0 || i >= frontier.len() {
    } else if j >= mids.len() {
        lemma_apply_moves_in(frontier, mids, back, i + 1, 0);
    } else if spec_has(back, frontier[i].0.spec_mult_transpose(&mids[j].0.spec_transpose())) {
    } else {
        lemma_apply_moves_in(frontier, mids, back, i, j + 1);
    }
}

/// The search beyond the stored layers does not lose its way back.
pub proof fn lemma_extrapolate_ok<T: CXCircuit>(
    forward: Seq<Seq<(T, usize)>>,
    backward: Seq<Seq<(T, usize)>>,
    moves: Seq<T>,
    extra: int,
)
    requires
        forward.len() >= 1,
        backward.len() >= 1,
        spec_linked(forward, moves),
        spec_linked(backward, moves),
    ensures
        spec_extrapolate(forward, backward, moves, extra) is Ok,
    decreases forward.len() - extra,
{
    if 1 <= extra < forward.len() {
        lemma_apply_moves_in(forward.last(), forward[extra], backward.last(), 0, 0);
        match spec_apply_moves(forward.last(), forward[extra], backward.last(), 0, 0) {
            Some((i, j)) => {
                let first = forward.last()[i].0;
                let mid = forward[extra][j].0;
                let product = first.spec_mult_transpose(&mid.spec_transpose());
                assert(spec_has(forward.last(), first));
                assert(spec_has(forward[extra], mid));
                lemma_result_ok(backward, moves, product, backward.len() - 1);
                lemma_result_ok(forward, moves, mid, extra);
                lemma_result_ok(forward, moves, first, forward.len() - 1);
            },
            None => {
                lemma_extrapolate_ok(forward, backward, moves, extra + 1);
            },
        }
    }
}

/// With moves that undo themselves, the search from both ends does not lose
/// its way back: it ends with a circuit or with none.
pub proof fn lemma_mitm_ok<T: CXCircuit>(target: T, moves: Seq<T>, max_steps: nat, extrapolate: bool)
    requires
        spec_self_undoing(moves),
        moves.len() <= usize::MAX,
    ensures
        spec_mitm_bfs(target, moves, max_steps, extrapolate) is Ok,
{
    let forward0 = spec_start(T::spec_new());
    let backward0 = spec_start(target);
    lemma_meet_linked(forward0, backward0, moves, max_steps);
    let met = spec_meet(forward0, backward0, moves, max_steps);
    match met.0 {
        Some(circ) => {
            lemma_result_ok(met.2, moves, circ, met.2.len() - 1);
            lemma_result_ok(met.1, moves, circ, met.1.len() - 1);
        },
        None => {
            lemma_extrapolate_ok(met.1, met.2, moves, 1);
        },
    }
}

} // verus!
