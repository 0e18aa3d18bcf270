//! What the breadth-first searches find is a circuit for the target, for every
//! type of circuit: with the moves of single gates, the gates at the positions
//! found, in their order, give the target.

use vstd::prelude::*;
use crate::bfs::{
    spec_backtrack, spec_backtrack_result, spec_bfs, spec_ids_below, spec_meet, spec_mitm_bfs, spec_start,
};
use crate::bfs_layers::{lemma_backtrack_walk, lemma_search_first, lemma_walk_concat, spec_final_layers, spec_walk};
use crate::bfs_sound::spec_pairs_of;
use crate::bfs_ways::{spec_comes_from, spec_layer_from, spec_linked, spec_self_undoing};
use crate::circ_moves::{spec_get, spec_has, spec_position};
use crate::cx_circuit::CXCircuit;
use crate::mitm_beyond::spec_products_walk;
use crate::mitm_shortest::{lemma_meet_first, lemma_meet_none, lemma_walk_back, spec_exact};

verus! {

/// Whether `moves` are the moves of the gates `pairs`: for each pair of two
/// different qubits the transposed circuit of its one gate.
pub open spec fn spec_gate_moves<T: CXCircuit>(moves: Seq<T>, pairs: Seq<(usize, usize)>) -> bool {
    &&& moves.len() == pairs.len()
    &&& forall|k: int|
        0 <= k < pairs.len() ==> {
            &&& (#[trigger] pairs[k]).0 < T::num_qubits()
            &&& pairs[k].1 < T::num_qubits()
            &&& pairs[k].0 != pairs[k].1
            &&& moves[k] == T::spec_new().spec_add_cx(pairs[k].0 as int, pairs[k].1 as int).spec_transpose()
        }
}

/// The moves of single gates undo themselves.
pub proof fn lemma_gate_moves_self_undoing<T: CXCircuit>(moves: Seq<T>, pairs: Seq<(usize, usize)>)
    requires
        spec_gate_moves(moves, pairs),
    ensures
        spec_self_undoing(moves),
{
    assert forall|c: T, m: int| 0 <= m < moves.len() implies (#[trigger] c.spec_mult_transpose(
        &moves[m],
    )).spec_mult_transpose(&moves[m]) == c by {
        assert(pairs[m].0 < T::num_qubits());
        c.lemma_gate_products(&c, pairs[m].0 as int, pairs[m].1 as int);
    }
}

/// With the moves of single gates, a circuit composed with the circuit that
/// moves lead to from the new circuit is the circuit that these moves lead to
/// from the first.
pub proof fn lemma_product_is_walk<T: CXCircuit>(c: T, moves: Seq<T>, pairs: Seq<(usize, usize)>, way: Seq<usize>)
    requires
        spec_gate_moves(moves, pairs),
        spec_ids_below(way, moves.len() as int),
    ensures
        c.spec_mult_transpose(&spec_walk(T::spec_new(), moves, way).spec_transpose()) == spec_walk(c, moves, way),
    decreases way.len(),
{
    let root = T::spec_new();
    if way.len() == 0 {
        c.lemma_new_product();
    } else {
        let front = way.drop_last();
        let k = way.last();
        assert(way[way.len() - 1] < moves.len());
        assert forall|i: int| 0 <= i < front.len() implies (#[trigger] front[i]) < moves.len() by {
            assert(front[i] == way[i]);
        }
        lemma_product_is_walk(c, moves, pairs, front);
        assert(pairs[k as int].0 < T::num_qubits());
        c.lemma_gate_products(&spec_walk(root, moves, front), pairs[k as int].0 as int, pairs[k as int].1 as int);
    }
}

/// With the moves of single gates, products are ways.
pub proof fn lemma_products_walk<T: CXCircuit>(moves: Seq<T>, pairs: Seq<(usize, usize)>)
    requires
        spec_gate_moves(moves, pairs),
    ensures
        spec_products_walk(moves),
{
    assert forall|c: T, way: Seq<usize>| spec_ids_below(way, moves.len() as int) implies c.spec_mult_transpose(
        &spec_walk(T::spec_new(), moves, way).spec_transpose(),
    ) == #[trigger] spec_walk(c, moves, way) by {
        lemma_product_is_walk(c, moves, pairs, way);
    }
}

/// A circuit of gates composed with the move of a gate is the circuit of that
/// gate followed by these gates.
pub proof fn lemma_circuit_move<T: CXCircuit>(cxs: Seq<(usize, usize)>, moves: Seq<T>, pairs: Seq<(usize, usize)>, k: int)
    requires
        spec_gate_moves(moves, pairs),
        0 <= k < moves.len(),
        forall|i: int|
            0 <= i < cxs.len() ==> (#[trigger] cxs[i]).0 < T::num_qubits() && cxs[i].1 < T::num_qubits() && cxs[i].0
                != cxs[i].1,
    ensures
        T::spec_from_cxs(cxs).spec_mult_transpose(&moves[k]) == T::spec_from_cxs(seq![pairs[k]] + cxs),
    decreases cxs.len(),
{
    let p = pairs[k];
    let longer = seq![p] + cxs;
    assert(p.0 < T::num_qubits());
    T::lemma_from_cxs(cxs);
    T::lemma_from_cxs(longer);
    let root = T::spec_new();
    if cxs.len() == 0 {
        assert(longer.drop_last() =~= Seq::<(usize, usize)>::empty());
        assert(longer.last() == p);
        T::lemma_from_cxs(longer.drop_last());
        root.lemma_gate_products(&root, p.0 as int, p.1 as int);
    } else {
        let front = cxs.drop_last();
        let g = cxs.last();
        assert(cxs[cxs.len() - 1].0 < T::num_qubits());
        assert forall|i: int| 0 <= i < front.len() implies (#[trigger] front[i]).0 < T::num_qubits() && front[i].1
            < T::num_qubits() && front[i].0 != front[i].1 by {
            assert(front[i] == cxs[i]);
        }
        lemma_circuit_move(front, moves, pairs, k);
        assert(longer.drop_last() =~= seq![p] + front);
        assert(longer.last() == g);
        T::spec_from_cxs(front).lemma_gate_products(&moves[k], g.0 as int, g.1 as int);
    }
}

/// The circuit that moves of single gates lead to from the new circuit is the
/// circuit of their gates, last move first.
pub proof fn lemma_walk_is_circuit<T: CXCircuit>(moves: Seq<T>, pairs: Seq<(usize, usize)>, way: Seq<usize>)
    requires
        spec_gate_moves(moves, pairs),
        spec_ids_below(way, moves.len() as int),
    ensures
        spec_walk(T::spec_new(), moves, way) == T::spec_from_cxs(spec_pairs_of(way.reverse(), pairs)),
    decreases way.len(),
{
    if way.len() == 0 {
        assert(spec_pairs_of(way.reverse(), pairs) =~= Seq::<(usize, usize)>::empty());
        T::lemma_from_cxs(Seq::<(usize, usize)>::empty());
    } else {
        let front = way.drop_last();
        let k = way.last();
        assert(way[way.len() - 1] < moves.len());
        assert forall|i: int| 0 <= i < front.len() implies (#[trigger] front[i]) < moves.len() by {
            assert(front[i] == way[i]);
        }
        lemma_walk_is_circuit(moves, pairs, front);
        let cxs = spec_pairs_of(front.reverse(), pairs);
        assert forall|i: int| 0 <= i < cxs.len() implies (#[trigger] cxs[i]).0 < T::num_qubits() && cxs[i].1
            < T::num_qubits() && cxs[i].0 != cxs[i].1 by {
            let j = front.reverse()[i];
            assert(j == front[front.len() - 1 - i]);
            assert(front[front.len() - 1 - i] < moves.len());
            assert(pairs[j as int].0 < T::num_qubits());
        }
        lemma_circuit_move(cxs, moves, pairs, k as int);
        assert(spec_pairs_of(way.reverse(), pairs) =~= seq![pairs[k as int]] + cxs);
    }
}

/// The way back through linked layers notes moves of the search only.
pub proof fn lemma_backtrack_below<T: CXCircuit>(
    acc: Seq<usize>,
    layers: Seq<Seq<(T, usize)>>,
    moves: Seq<T>,
    curr: T,
    d: int,
)
    requires
        spec_linked(layers, moves),
        d < layers.len(),
        spec_ids_below(acc, moves.len() as int),
    ensures
        spec_ids_below(spec_backtrack(acc, layers, moves, curr, d).0, moves.len() as int),
    decreases d,
{
    if d > 0 {
        match spec_get(layers[d], curr) {
            Some(m) => {
                let p = spec_position(layers[d], curr);
                assert(spec_layer_from(layers[d], layers[d - 1], moves));
                assert(spec_comes_from(layers[d][p], layers[d - 1], moves));
                let longer = acc.push(m);
                assert forall|i: int| 0 <= i < longer.len() implies (#[trigger] longer[i]) < moves.len() by {
                    if i < acc.len() {
                        assert(longer[i] == acc[i]);
                    }
                }
                lemma_backtrack_below(longer, layers, moves, curr.spec_mult_transpose(&moves[m as int]), d - 1);
            },
            None => {
                lemma_backtrack_below(acc, layers, moves, curr, d - 1);
            },
        }
    }
}

/// The moves of a way back that ends at the root, taken backwards, lead from
/// the root to the circuit that the way back started at.
pub proof fn lemma_result_walk<T: CXCircuit>(layers: Seq<Seq<(T, usize)>>, moves: Seq<T>, root: T, circ: T)
    requires
        spec_self_undoing(moves),
        spec_exact(layers, moves, root),
        spec_backtrack_result(layers, moves, circ) is Ok,
    ensures
        ({
            let ids = spec_backtrack_result(layers, moves, circ)->Ok_0;
            &&& spec_ids_below(ids, moves.len() as int)
            &&& spec_ids_below(ids.reverse(), moves.len() as int)
            &&& spec_walk(circ, moves, ids) == root
            &&& spec_walk(root, moves, ids.reverse()) == circ
        }),
{
    let back = spec_backtrack(Seq::empty(), layers, moves, circ, layers.len() - 1);
    lemma_backtrack_walk(Seq::empty(), layers, moves, circ, layers.len() - 1);
    lemma_backtrack_below(Seq::empty(), layers, moves, circ, layers.len() - 1);
    assert(back.0.subrange(0, back.0.len() as int) =~= back.0);
    let i = choose|i: int| 0 <= i < layers[0].len() && (#[trigger] layers[0][i]).0 == back.1;
    assert(back.1 == root);
    lemma_walk_back(circ, moves, back.0);
}

/// With the moves of single gates, what the search from the new circuit alone
/// finds is a circuit for the target: the gates at the positions found, in
/// their order, give the target.
pub proof fn lemma_bfs_circuit<T: CXCircuit>(target: T, moves: Seq<T>, pairs: Seq<(usize, usize)>, max_steps: nat)
    requires
        spec_gate_moves(moves, pairs),
        moves.len() <= usize::MAX,
        spec_bfs(target, moves, max_steps) matches Ok(Some(_)),
    ensures
        spec_bfs(target, moves, max_steps) matches Ok(Some(ids)) && spec_ids_below(ids, pairs.len() as int)
            && T::spec_from_cxs(spec_pairs_of(ids, pairs)) == target,
{
    let root = T::spec_new();
    let first = spec_start(root);
    assert(first[0] == seq![(root, usize::MAX)]);
    lemma_gate_moves_self_undoing(moves, pairs);
    lemma_search_first(first, moves, target, max_steps);
    lemma_search_result(first, moves, target, max_steps);
    let last = spec_final_layers(first, moves, target, max_steps);
    lemma_final_linked(first, moves, target, max_steps);
    lemma_result_walk(last, moves, root, target);
    let ids = spec_backtrack_result(last, moves, target)->Ok_0;
    lemma_walk_is_circuit(moves, pairs, ids.reverse());
    assert(ids.reverse().reverse() =~= ids);
}

/// What a search finds is the way back through its last layers.
pub proof fn lemma_search_result<T: CXCircuit>(layers: Seq<Seq<(T, usize)>>, moves: Seq<T>, target: T, steps: nat)
    requires
        crate::bfs::spec_search(layers, moves, target, steps) matches Ok(Some(_)),
    ensures
        spec_backtrack_result(spec_final_layers(layers, moves, target, steps), moves, target) is Ok,
        crate::bfs::spec_search(layers, moves, target, steps) == Ok::<Option<Seq<usize>>, crate::bfs::BacktrackError>(
            Some(spec_backtrack_result(spec_final_layers(layers, moves, target, steps), moves, target)->Ok_0),
        ),
    decreases steps,
{
    if steps > 0 {
        let grown = crate::bfs::spec_step(layers, moves);
        if !spec_has(grown.last(), target) {
            lemma_search_result(grown, moves, target, (steps - 1) as nat);
        }
    }
}

/// The last layers of a search are linked.
pub proof fn lemma_final_linked<T: CXCircuit>(layers: Seq<Seq<(T, usize)>>, moves: Seq<T>, target: T, steps: nat)
    requires
        spec_self_undoing(moves),
        moves.len() <= usize::MAX,
        layers.len() >= 1,
        spec_linked(layers, moves),
    ensures
        spec_linked(spec_final_layers(layers, moves, target, steps), moves),
    decreases steps,
{
    if steps > 0 {
        let grown = crate::bfs::spec_step(layers, moves);
        crate::bfs_ways::lemma_step_linked(layers, moves);
        if !spec_has(grown.last(), target) {
            lemma_final_linked(grown, moves, target, (steps - 1) as nat);
        }
    }
}

/// With the moves of single gates, what the search from both ends finds is a
/// circuit for the target, where its two searches meet and beyond its layers:
/// the gates at the positions found, in their order, give the target.
pub proof fn lemma_mitm_circuit<T: CXCircuit>(
    target: T,
    moves: Seq<T>,
    pairs: Seq<(usize, usize)>,
    max_steps: nat,
    extrapolate: bool,
)
    requires
        spec_gate_moves(moves, pairs),
        moves.len() <= usize::MAX,
        spec_mitm_bfs(target, moves, max_steps, extrapolate) matches Ok(Some(_)),
    ensures
        spec_mitm_bfs(target, moves, max_steps, extrapolate) matches Ok(Some(ids)) && spec_ids_below(
            ids,
            pairs.len() as int,
        ) && T::spec_from_cxs(spec_pairs_of(ids, pairs)) == target,
{
    let root = T::spec_new();
    let forward0 = spec_start(root);
    let backward0 = spec_start(target);
    assert(forward0[0] == seq![(root, usize::MAX)]);
    assert(backward0[0] == seq![(target, usize::MAX)]);
    lemma_gate_moves_self_undoing(moves, pairs);
    lemma_products_walk(moves, pairs);
    let met = spec_meet(forward0, backward0, moves, max_steps);
    let ids = spec_mitm_bfs(target, moves, max_steps, extrapolate)->Ok_0->0;
    match met.0 {
        Some(circ) => {
            lemma_meet_first(forward0, backward0, moves, root, target, max_steps);
            lemma_result_walk(met.2, moves, target, circ);
            lemma_result_walk(met.1, moves, root, circ);
            let back = spec_backtrack_result(met.2, moves, circ)->Ok_0;
            let forth = spec_backtrack_result(met.1, moves, circ)->Ok_0;
            assert(ids == back.reverse() + forth);
            let way = forth.reverse() + back;
            lemma_walk_concat(root, moves, forth.reverse(), back);
            lemma_ids_join(forth.reverse(), back, moves.len() as int);
            lemma_ids_join(back.reverse(), forth, moves.len() as int);
            lemma_walk_is_circuit(moves, pairs, way);
            assert(way.reverse() =~= ids);
        },
        None => {
            lemma_meet_none(forward0, backward0, moves, root, target, max_steps);
            lemma_beyond_circuit(met.1, met.2, moves, pairs, target, 1);
        },
    }
}

/// Positions below a bound, one list after another, are below the bound.
pub proof fn lemma_ids_join(a: Seq<usize>, b: Seq<usize>, n: int)
    requires
        spec_ids_below(a, n),
        spec_ids_below(b, n),
    ensures
        spec_ids_below(a + b, n),
{
    let both = a + b;
    assert forall|k: int| 0 <= k < both.len() implies (#[trigger] both[k]) < n by {
        if k < a.len() {
            assert(both[k] == a[k]);
        } else {
            assert(both[k] == b[k - a.len()]);
        }
    }
}

/// What the search beyond the layers finds, where products are ways, is a
/// circuit for the target.
pub proof fn lemma_beyond_circuit<T: CXCircuit>(
    forward: Seq<Seq<(T, usize)>>,
    backward: Seq<Seq<(T, usize)>>,
    moves: Seq<T>,
    pairs: Seq<(usize, usize)>,
    target: T,
    extra: int,
)
    requires
        spec_gate_moves(moves, pairs),
        spec_self_undoing(moves),
        spec_products_walk(moves),
        spec_exact(forward, moves, T::spec_new()),
        spec_exact(backward, moves, target),
        crate::bfs::spec_extrapolate(forward, backward, moves, extra) matches Ok(Some(_)),
    ensures
        crate::bfs::spec_extrapolate(forward, backward, moves, extra) matches Ok(Some(ids)) && spec_ids_below(
            ids,
            pairs.len() as int,
        ) && T::spec_from_cxs(spec_pairs_of(ids, pairs)) == target,
    decreases forward.len() - extra,
{
    let root = T::spec_new();
    if 1 <= extra < forward.len() {
        match crate::bfs::spec_apply_moves(forward.last(), forward[extra], backward.last(), 0, 0) {
            Some((i, j)) => {
                let first = forward.last()[i].0;
                let mid = forward[extra][j].0;
                let product = first.spec_mult_transpose(&mid.spec_transpose());
                lemma_result_walk(backward, moves, target, product);
                lemma_result_walk(forward, moves, root, mid);
                lemma_result_walk(forward, moves, root, first);
                let back = spec_backtrack_result(backward, moves, product)->Ok_0;
                let half = spec_backtrack_result(forward, moves, mid)->Ok_0;
                let forth = spec_backtrack_result(forward, moves, first)->Ok_0;
                let ids = back.reverse() + half + forth;
                assert(spec_walk(first, moves, half.reverse()) == product);
                lemma_walk_concat(root, moves, forth.reverse(), half.reverse());
                let front = forth.reverse() + half.reverse();
                lemma_walk_concat(root, moves, front, back);
                lemma_ids_join(forth.reverse(), half.reverse(), moves.len() as int);
                lemma_ids_join(front, back, moves.len() as int);
                lemma_ids_join(back.reverse(), half, moves.len() as int);
                lemma_ids_join(back.reverse() + half, forth, moves.len() as int);
                let way = front + back;
                lemma_walk_is_circuit(moves, pairs, way);
                assert(way.reverse() =~= ids);
            },
            None => {
                lemma_beyond_circuit(forward, backward, moves, pairs, target, extra + 1);
            },
        }
    }
}

/// With the moves of single gates, the search from the new circuit alone
/// finds a shortest circuit, and finds one wherever one of no more gates than
/// its steps exists: no circuit of the gates of `pairs` for the target has
/// fewer gates than the circuit found.
pub proof fn lemma_bfs_shortest_circuit<T: CXCircuit>(
    target: T,
    moves: Seq<T>,
    pairs: Seq<(usize, usize)>,
    max_steps: nat,
    other: Seq<usize>,
)
    requires
        spec_gate_moves(moves, pairs),
        moves.len() <= usize::MAX,
        spec_ids_below(other, pairs.len() as int),
        T::spec_from_cxs(spec_pairs_of(other, pairs)) == target,
    ensures
        spec_bfs(target, moves, max_steps) matches Ok(Some(ids)) ==> ids.len() <= other.len(),
        other.len() <= max_steps && target != T::spec_new() ==> spec_bfs(target, moves, max_steps) matches Ok(
            Some(_),
        ),
{
    lemma_gate_moves_self_undoing(moves, pairs);
    let way = other.reverse();
    lemma_ids_reverse(other, moves.len() as int);
    lemma_walk_is_circuit(moves, pairs, way);
    assert(way.reverse() =~= other);
    if spec_bfs(target, moves, max_steps) matches Ok(Some(_)) {
        crate::bfs_layers::lemma_bfs_shortest(target, moves, max_steps, way);
    }
    if other.len() <= max_steps && target != T::spec_new() {
        crate::bfs_layers::lemma_bfs_complete(target, moves, max_steps, way);
    }
}

/// Positions below a bound, taken backwards, are below the bound.
pub proof fn lemma_ids_reverse(ids: Seq<usize>, n: int)
    requires
        spec_ids_below(ids, n),
    ensures
        spec_ids_below(ids.reverse(), n),
{
    let back = ids.reverse();
    assert forall|k: int| 0 <= k < back.len() implies (#[trigger] back[k]) < n by {
        assert(back[k] == ids[ids.len() - 1 - k]);
    }
}

/// With the moves of single gates, the search from both ends, which also looks
/// beyond its layers, finds a shortest circuit for a target that is not the
/// new circuit wherever a circuit of at most three times its rounds exists:
/// where `other` is a circuit for the target of the least number of gates, the
/// search finds a circuit of that number of gates.
pub proof fn lemma_mitm_finds_shortest<T: CXCircuit>(
    target: T,
    moves: Seq<T>,
    pairs: Seq<(usize, usize)>,
    max_steps: nat,
    other: Seq<usize>,
)
    requires
        spec_gate_moves(moves, pairs),
        moves.len() <= usize::MAX,
        target != T::spec_new(),
        spec_ids_below(other, pairs.len() as int),
        T::spec_from_cxs(spec_pairs_of(other, pairs)) == target,
        forall|any: Seq<usize>|
            spec_ids_below(any, pairs.len() as int) && #[trigger] T::spec_from_cxs(spec_pairs_of(any, pairs)) == target
                ==> any.len() >= other.len(),
        other.len() <= 3 * max_steps,
    ensures
        spec_mitm_bfs(target, moves, max_steps, true) matches Ok(Some(ids)) && ids.len() == other.len(),
{
    let root = T::spec_new();
    let way = other.reverse();
    lemma_gate_moves_self_undoing(moves, pairs);
    lemma_products_walk(moves, pairs);
    lemma_ids_reverse(other, moves.len() as int);
    lemma_walk_is_circuit(moves, pairs, way);
    assert(way.reverse() =~= other);
    assert forall|any: Seq<usize>|
        spec_ids_below(any, moves.len() as int) && #[trigger] spec_walk(root, moves, any) == target implies any.len()
        >= way.len() by {
        lemma_ids_reverse(any, moves.len() as int);
        lemma_walk_is_circuit(moves, pairs, any);
        assert(T::spec_from_cxs(spec_pairs_of(any.reverse(), pairs)) == target);
    }
    if other.len() <= 2 * max_steps {
        crate::mitm_shortest::lemma_mitm_complete(target, moves, max_steps, true, way);
        crate::mitm_shortest::lemma_mitm_shortest(target, moves, max_steps, true, way);
        lemma_mitm_circuit(target, moves, pairs, max_steps, true);
        let ids = spec_mitm_bfs(target, moves, max_steps, true)->Ok_0->0;
        assert(T::spec_from_cxs(spec_pairs_of(ids, pairs)) == target);
    } else {
        crate::mitm_beyond::lemma_mitm_beyond(target, moves, max_steps, way);
    }
}

} // verus!
