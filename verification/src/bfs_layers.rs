//! What the layers of a breadth-first search hold: a new layer is the set of
//! the products of the last layer with the moves that the last two layers do
//! not have, and every circuit of few moves is in an early layer.

use vstd::prelude::*;
use crate::bfs::{spec_backtrack, spec_bfs, spec_collect, spec_ids_below, spec_search, spec_start, spec_step};
use crate::bfs_ways::{lemma_bfs_ok, lemma_result_ok, lemma_step_linked, spec_linked, spec_self_undoing};
use crate::bfs_ways::{spec_comes_from, spec_layer_from};
use crate::circ_moves::{spec_get, spec_has, spec_position, spec_put};
use crate::cx_circuit::CXCircuit;

verus! {

/// Whether `x` is circuit `p` of `circs` composed with move `q`.
pub open spec fn spec_made_at<T: CXCircuit>(circs: Seq<(T, usize)>, moves: Seq<T>, x: T, p: int, q: int) -> bool {
    0 <= p < circs.len() && 0 <= q < moves.len() && x == circs[p].0.spec_mult_transpose(&moves[q])
}

/// Whether `x` is a circuit of `circs` composed with a move, for circuit `i`
/// from move `j` on, or for a later circuit.
pub open spec fn spec_made_from<T: CXCircuit>(circs: Seq<(T, usize)>, moves: Seq<T>, x: T, i: int, j: int) -> bool {
    exists|p: int, q: int| #[trigger] spec_made_at(circs, moves, x, p, q) && (p > i || (p == i && q >= j))
}

/// Whether `x` is a circuit of `circs` composed with one of the moves.
pub open spec fn spec_product_of<T: CXCircuit>(circs: Seq<(T, usize)>, moves: Seq<T>, x: T) -> bool {
    spec_made_from(circs, moves, x, 0, 0)
}

/// After a circuit was put, the entries have it and what they had before.
pub proof fn lemma_put_has<T>(entries: Seq<(T, usize)>, c: T, m: usize, x: T)
    ensures
        spec_has(spec_put(entries, c, m), x) <==> (spec_has(entries, x) || x == c),
{
    let after = spec_put(entries, c, m);
    if spec_has(entries, c) {
        let p = spec_position(entries, c);
        assert(after[p].0 == c);
        if spec_has(after, x) {
            let k = choose|k: int| 0 <= k < after.len() && (#[trigger] after[k]).0 == x;
            if k != p {
                assert(entries[k].0 == x);
            }
        }
        if spec_has(entries, x) {
            let k = choose|k: int| 0 <= k < entries.len() && (#[trigger] entries[k]).0 == x;
            assert(after[k].0 == x);
        }
    } else {
        assert(after[entries.len() as int].0 == c);
        if spec_has(after, x) {
            let k = choose|k: int| 0 <= k < after.len() && (#[trigger] after[k]).0 == x;
            if k < entries.len() {
                assert(entries[k].0 == x);
            }
        }
        if spec_has(entries, x) {
            let k = choose|k: int| 0 <= k < entries.len() && (#[trigger] entries[k]).0 == x;
            assert(after[k].0 == x);
        }
    }
}

/// What a step collects: what it had, and the products still to come that
/// neither `seen1` nor `seen2` has.
pub proof fn lemma_collect_has<T: CXCircuit>(
    acc: Seq<(T, usize)>,
    circs: Seq<(T, usize)>,
    moves: Seq<T>,
    seen1: Seq<(T, usize)>,
    seen2: Seq<(T, usize)>,
    i: int,
    j: int,
    x: T,
)
    requires
        0 <= i,
        0 <= j,
    ensures
        spec_has(spec_collect(acc, circs, moves, seen1, seen2, i, j), x) <==> (spec_has(acc, x) || (spec_made_from(
            circs,
            moves,
            x,
            i,
            j,
        ) && !spec_has(seen1, x) && !spec_has(seen2, x))),
    decreases circs.len() - i, moves.len() - j,
{
    if i >= circs.len() {
        if spec_made_from(circs, moves, x, i, j) {
            let (p, q) = choose|p: int, q: int| #[trigger]
                spec_made_at(circs, moves, x, p, q) && (p > i || (p == i && q >= j));
        }
    } else if j >= moves.len() {
        lemma_collect_has(acc, circs, moves, seen1, seen2, i + 1, 0, x);
        if spec_made_from(circs, moves, x, i, j) {
            let (p, q) = choose|p: int, q: int| #[trigger]
                spec_made_at(circs, moves, x, p, q) && (p > i || (p == i && q >= j));
            assert(spec_made_at(circs, moves, x, p, q) && (p > i + 1 || (p == i + 1 && q >= 0)));
        }
        if spec_made_from(circs, moves, x, i + 1, 0) {
            let (p, q) = choose|p: int, q: int| #[trigger]
                spec_made_at(circs, moves, x, p, q) && (p > i + 1 || (p == i + 1 && q >= 0));
            assert(spec_made_at(circs, moves, x, p, q) && (p > i || (p == i && q >= j)));
        }
    } else {
        let made = circs[i].0.spec_mult_transpose(&moves[j]);
        let fresh = !spec_has(seen1, made) && !spec_has(seen2, made);
        let next = if fresh {
            spec_put(acc, made, j as usize)
        } else {
            acc
        };
        lemma_collect_has(next, circs, moves, seen1, seen2, i, j + 1, x);
        if fresh {
            lemma_put_has(acc, made, j as usize, x);
        }
        if spec_made_from(circs, moves, x, i, j) {
            let (p, q) = choose|p: int, q: int| #[trigger]
                spec_made_at(circs, moves, x, p, q) && (p > i || (p == i && q >= j));
            if !(p == i && q == j) {
                assert(spec_made_at(circs, moves, x, p, q) && (p > i || (p == i && q >= j + 1)));
            }
        }
        if spec_made_from(circs, moves, x, i, j + 1) {
            let (p, q) = choose|p: int, q: int| #[trigger]
                spec_made_at(circs, moves, x, p, q) && (p > i || (p == i && q >= j + 1));
            assert(spec_made_at(circs, moves, x, p, q) && (p > i || (p == i && q >= j)));
        }
        if x == made {
            assert(spec_made_at(circs, moves, x, i, j) && (i > i || (i == i && j >= j)));
        }
    }
}

/// The layer that a step adds is the set of new products: the circuits of the
/// last layer composed with a move, but for those that the last layer or the
/// one before it has.
pub proof fn lemma_step_has<T: CXCircuit>(layers: Seq<Seq<(T, usize)>>, moves: Seq<T>, x: T)
    requires
        layers.len() >= 1,
    ensures
        spec_has(spec_step(layers, moves).last(), x) <==> (spec_product_of(layers.last(), moves, x) && !spec_has(
            layers.last(),
            x,
        ) && !(layers.len() > 1 && spec_has(layers[layers.len() - 2], x))),
{
    let last = layers.last();
    let before = if layers.len() > 1 {
        layers[layers.len() - 2]
    } else {
        Seq::empty()
    };
    lemma_collect_has(Seq::empty(), last, moves, last, before, 0, 0, x);
}

/// Whether the circuit `x` is in layer `j`, in the layer after it or in the
/// layer before it.
pub open spec fn spec_near<T>(layers: Seq<Seq<(T, usize)>>, j: int, x: T) -> bool {
    spec_has(layers[j + 1], x) || spec_has(layers[j], x) || (j >= 1 && spec_has(layers[j - 1], x))
}

/// Whether circuit `k` of layer `j`, composed with move `m`, is near layer `j`.
pub open spec fn spec_child_near<T: CXCircuit>(layers: Seq<Seq<(T, usize)>>, moves: Seq<T>, j: int, k: int, m: int) -> bool {
    spec_near(layers, j, layers[j][k].0.spec_mult_transpose(&moves[m]))
}

/// Whether every circuit of a layer but the last, composed with a move, is in
/// that layer, in the layer after it or in the layer before it.
pub open spec fn spec_closed<T: CXCircuit>(layers: Seq<Seq<(T, usize)>>, moves: Seq<T>) -> bool {
    forall|j: int, k: int, m: int|
        0 <= j && j + 1 < layers.len() && 0 <= k < layers[j].len() && 0 <= m < moves.len() ==> #[trigger] spec_child_near(
            layers,
            moves,
            j,
            k,
            m,
        )
}

/// A step keeps the layers closed.
pub proof fn lemma_step_closed<T: CXCircuit>(layers: Seq<Seq<(T, usize)>>, moves: Seq<T>)
    requires
        layers.len() >= 1,
        spec_closed(layers, moves),
    ensures
        spec_closed(spec_step(layers, moves), moves),
{
    let grown = spec_step(layers, moves);
    let top = layers.len() - 1;
    assert forall|j: int, k: int, m: int|
        0 <= j && j + 1 < grown.len() && 0 <= k < grown[j].len() && 0 <= m < moves.len() implies #[trigger] spec_child_near(
        grown,
        moves,
        j,
        k,
        m,
    ) by {
        if j + 1 < layers.len() {
            assert(spec_child_near(layers, moves, j, k, m));
            assert(grown[j + 1] == layers[j + 1]);
            assert(grown[j] == layers[j]);
            if j >= 1 {
                assert(grown[j - 1] == layers[j - 1]);
            }
        } else {
            let x = grown[j][k].0.spec_mult_transpose(&moves[m]);
            assert(grown[j] == layers.last());
            lemma_step_has(layers, moves, x);
            assert(spec_made_at(layers.last(), moves, x, k, m) && (k > 0 || (k == 0 && m >= 0)));
            assert(spec_product_of(layers.last(), moves, x));
            assert(grown[j + 1] == grown.last());
            if j >= 1 {
                assert(grown[j - 1] == layers[layers.len() - 2]);
            }
        }
    }
}

/// Whether layer `a` is without circuit `k` of layer `b`.
pub open spec fn spec_apart<T>(layers: Seq<Seq<(T, usize)>>, a: int, b: int, k: int) -> bool {
    !spec_has(layers[a], layers[b][k].0)
}

/// Whether no circuit is in two layers.
pub open spec fn spec_disjoint<T>(layers: Seq<Seq<(T, usize)>>) -> bool {
    forall|a: int, b: int, k: int|
        0 <= a < b < layers.len() && 0 <= k < layers[b].len() ==> #[trigger] spec_apart(layers, a, b, k)
}

/// With moves that undo themselves, a step adds only circuits that no layer
/// has: a new layer is the set of the products that are new to the search.
pub proof fn lemma_step_disjoint<T: CXCircuit>(layers: Seq<Seq<(T, usize)>>, moves: Seq<T>)
    requires
        spec_self_undoing(moves),
        layers.len() >= 1,
        spec_closed(layers, moves),
        spec_disjoint(layers),
    ensures
        spec_disjoint(spec_step(layers, moves)),
{
    let grown = spec_step(layers, moves);
    let top = layers.len() - 1;
    assert forall|a: int, b: int, k: int| 0 <= a < b < grown.len() && 0 <= k < grown[b].len() implies #[trigger] spec_apart(
        grown,
        a,
        b,
        k,
    ) by {
        assert(grown[a] == layers[a]);
        if b <= top {
            assert(grown[b] == layers[b]);
            assert(spec_apart(layers, a, b, k));
        } else {
            let x = grown[b][k].0;
            assert(grown[b] == grown.last());
            assert(spec_has(grown.last(), x));
            lemma_step_has(layers, moves, x);
            if a + 1 < top && spec_has(layers[a], x) {
                let ka = choose|ka: int| 0 <= ka < layers[a].len() && (#[trigger] layers[a][ka]).0 == x;
                let (p, q) = choose|p: int, q: int| #[trigger]
                    spec_made_at(layers.last(), moves, x, p, q) && (p > 0 || (p == 0 && q >= 0));
                let y = layers[top][p].0;
                assert(x.spec_mult_transpose(&moves[q]) == y);
                assert(spec_child_near(layers, moves, a, ka, q));
                assert(spec_apart(layers, a + 1, top, p));
                assert(spec_apart(layers, a, top, p));
                if a >= 1 {
                    assert(spec_apart(layers, a - 1, top, p));
                }
                assert(false);
            }
        }
    }
}

/// What the layer that a step adds holds, with moves that undo themselves: the
/// circuits of the last layer composed with a move that no layer has.
pub proof fn lemma_step_new<T: CXCircuit>(layers: Seq<Seq<(T, usize)>>, moves: Seq<T>, x: T)
    requires
        spec_self_undoing(moves),
        layers.len() >= 1,
        spec_closed(layers, moves),
        spec_disjoint(layers),
    ensures
        spec_has(spec_step(layers, moves).last(), x) <==> (spec_product_of(layers.last(), moves, x) && !spec_within(
            layers,
            layers.len() - 1,
            x,
        )),
{
    let grown = spec_step(layers, moves);
    lemma_step_has(layers, moves, x);
    lemma_step_disjoint(layers, moves);
    if spec_has(grown.last(), x) {
        let k = choose|k: int| 0 <= k < grown.last().len() && (#[trigger] grown.last()[k]).0 == x;
        assert forall|j: int| 0 <= j < layers.len() implies !spec_has(#[trigger] layers[j], x) by {
            assert(spec_apart(grown, j, layers.len() as int, k));
            assert(grown[j] == layers[j]);
        }
    }
    if !spec_within(layers, layers.len() - 1, x) {
        assert(!spec_has(layers[layers.len() - 1], x));
        if layers.len() > 1 {
            assert(!spec_has(layers[layers.len() - 2], x));
        }
    }
}

/// The circuit that the moves at the positions `way` lead to from `root`.
pub open spec fn spec_walk<T: CXCircuit>(root: T, moves: Seq<T>, way: Seq<usize>) -> T
    decreases way.len(),
{
    if way.len() == 0 {
        root
    } else {
        spec_walk(root, moves, way.drop_last()).spec_mult_transpose(&moves[way.last() as int])
    }
}

/// Whether the layers are sound: there is a first layer, every other layer
/// comes from the layer before it, the layers are closed, and no circuit is in
/// two of them.
pub open spec fn spec_sound_layers<T: CXCircuit>(layers: Seq<Seq<(T, usize)>>, moves: Seq<T>) -> bool {
    &&& layers.len() >= 1
    &&& spec_linked(layers, moves)
    &&& spec_closed(layers, moves)
    &&& spec_disjoint(layers)
}

/// With moves that undo themselves, a step keeps the layers sound.
pub proof fn lemma_step_sound<T: CXCircuit>(layers: Seq<Seq<(T, usize)>>, moves: Seq<T>)
    requires
        spec_self_undoing(moves),
        moves.len() <= usize::MAX,
        spec_sound_layers(layers, moves),
    ensures
        spec_sound_layers(spec_step(layers, moves), moves),
        spec_step(layers, moves).len() == layers.len() + 1,
        forall|d: int| 0 <= d < layers.len() ==> spec_step(layers, moves)[d] == layers[d],
{
    lemma_step_linked(layers, moves);
    lemma_step_closed(layers, moves);
    lemma_step_disjoint(layers, moves);
}

/// A way after a way leads to where the second leads from the end of the first.
pub proof fn lemma_walk_concat<T: CXCircuit>(root: T, moves: Seq<T>, first: Seq<usize>, then: Seq<usize>)
    ensures
        spec_walk(root, moves, first + then) == spec_walk(spec_walk(root, moves, first), moves, then),
    decreases then.len(),
{
    let both = first + then;
    if then.len() == 0 {
        assert(both =~= first);
    } else {
        assert(both.drop_last() =~= first + then.drop_last());
        assert(both.last() == then.last());
        lemma_walk_concat(root, moves, first, then.drop_last());
    }
}


/// The circuit that is left at the end of a way back is the circuit that the
/// moves noted lead to from the circuit it started at.
pub proof fn lemma_backtrack_walk<T: CXCircuit>(
    acc: Seq<usize>,
    layers: Seq<Seq<(T, usize)>>,
    moves: Seq<T>,
    curr: T,
    d: int,
)
    ensures
        ({
            let back = spec_backtrack(acc, layers, moves, curr, d);
            &&& back.0.len() >= acc.len()
            &&& back.0.subrange(0, acc.len() as int) == acc
            &&& back.1 == spec_walk(curr, moves, back.0.subrange(acc.len() as int, back.0.len() as int))
        }),
    decreases d,
{
    let back = spec_backtrack(acc, layers, moves, curr, d);
    if d <= 0 {
        assert(back.0.subrange(0, acc.len() as int) =~= acc);
        assert(back.0.subrange(acc.len() as int, back.0.len() as int) =~= Seq::<usize>::empty());
    } else {
        match spec_get(layers[d], curr) {
            Some(m) => {
                let next = curr.spec_mult_transpose(&moves[m as int]);
                lemma_backtrack_walk(acc.push(m), layers, moves, next, d - 1);
                let noted = back.0.subrange(acc.len() as int, back.0.len() as int);
                let rest = back.0.subrange(acc.len() as int + 1, back.0.len() as int);
                let longer = acc.push(m);
                assert(back.0.subrange(0, longer.len() as int) == longer);
                assert(back.0.subrange(0, acc.len() as int) =~= acc) by {
                    assert forall|k: int| 0 <= k < acc.len() implies back.0[k] == acc[k] by {
                        assert(back.0.subrange(0, longer.len() as int)[k] == longer[k]);
                    }
                }
                assert(back.0[acc.len() as int] == m) by {
                    assert(back.0.subrange(0, longer.len() as int)[acc.len() as int] == longer[acc.len() as int]);
                }
                let one = seq![m];
                assert(noted =~= one + rest);
                lemma_walk_concat(curr, moves, one, rest);
                assert(one.drop_last() =~= Seq::<usize>::empty());
                assert(spec_walk(curr, moves, one) == spec_walk(curr, moves, one.drop_last()).spec_mult_transpose(
                    &moves[one.last() as int],
                ));
            },
            None => {
                lemma_backtrack_walk(acc, layers, moves, curr, d - 1);
            },
        }
    }
}

/// In sound layers the way back from a circuit of layer `j` notes `j` moves:
/// one for its layer and one for each layer before it.
pub proof fn lemma_backtrack_exact<T: CXCircuit>(
    acc: Seq<usize>,
    layers: Seq<Seq<(T, usize)>>,
    moves: Seq<T>,
    curr: T,
    d: int,
    j: int,
)
    requires
        spec_linked(layers, moves),
        spec_disjoint(layers),
        0 <= j <= d < layers.len(),
        spec_has(layers[j], curr),
    ensures
        spec_backtrack(acc, layers, moves, curr, d).0.len() == acc.len() + j,
    decreases d,
{
    if d > 0 {
        match spec_get(layers[d], curr) {
            Some(m) => {
                let p = spec_position(layers[d], curr);
                if j < d {
                    assert(spec_apart(layers, j, d, p));
                }
                assert(spec_layer_from(layers[d], layers[d - 1], moves));
                assert(spec_comes_from(layers[d][p], layers[d - 1], moves));
                lemma_backtrack_exact(
                    acc.push(m),
                    layers,
                    moves,
                    curr.spec_mult_transpose(&moves[m as int]),
                    d - 1,
                    d - 1,
                );
            },
            None => {
                lemma_backtrack_exact(acc, layers, moves, curr, d - 1, j);
            },
        }
    }
}

/// Whether one of the layers up to `d` has the circuit `x`.
pub open spec fn spec_within<T>(layers: Seq<Seq<(T, usize)>>, d: int, x: T) -> bool {
    exists|j: int| 0 <= j <= d && j < layers.len() && spec_has(#[trigger] layers[j], x)
}

/// In closed layers, a circuit that few moves lead to from the root is in an
/// early layer: one of those up to the number of its moves.
pub proof fn lemma_walk_within<T: CXCircuit>(layers: Seq<Seq<(T, usize)>>, moves: Seq<T>, root: T, way: Seq<usize>)
    requires
        spec_closed(layers, moves),
        layers.len() >= 1,
        spec_has(layers[0], root),
        spec_ids_below(way, moves.len() as int),
        way.len() < layers.len(),
    ensures
        spec_within(layers, way.len() as int, spec_walk(root, moves, way)),
    decreases way.len(),
{
    if way.len() == 0 {
        assert(spec_has(layers[0], root));
    } else {
        let front = way.drop_last();
        assert forall|k: int| 0 <= k < front.len() implies (#[trigger] front[k]) < moves.len() by {
            assert(front[k] == way[k]);
        }
        lemma_walk_within(layers, moves, root, front);
        let y = spec_walk(root, moves, front);
        let j = choose|j: int| 0 <= j <= front.len() && j < layers.len() && spec_has(#[trigger] layers[j], y);
        let k = choose|k: int| 0 <= k < layers[j].len() && (#[trigger] layers[j][k]).0 == y;
        let m = way.last() as int;
        assert(way[way.len() - 1] < moves.len());
        assert(spec_child_near(layers, moves, j, k, m));
        let x = spec_walk(root, moves, way);
        if spec_has(layers[j + 1], x) {
        } else if spec_has(layers[j], x) {
        } else {
            assert(spec_has(layers[j - 1], x));
        }
    }
}

/// The layers of a search at its end: those in which the target was found, or
/// those after the last step.
pub open spec fn spec_final_layers<T: CXCircuit>(layers: Seq<Seq<(T, usize)>>, moves: Seq<T>, target: T, steps: nat) -> Seq<
    Seq<(T, usize)>,
>
    decreases steps,
{
    if steps == 0 {
        layers
    } else {
        let grown = spec_step(layers, moves);
        if spec_has(grown.last(), target) {
            grown
        } else {
            spec_final_layers(grown, moves, target, (steps - 1) as nat)
        }
    }
}

/// Where a search finds its target, the last layer has it and no other layer,
/// and the moves found are as many as the steps made.
pub proof fn lemma_search_first<T: CXCircuit>(layers: Seq<Seq<(T, usize)>>, moves: Seq<T>, target: T, steps: nat)
    requires
        spec_self_undoing(moves),
        moves.len() <= usize::MAX,
        layers.len() >= 1,
        spec_linked(layers, moves),
        spec_closed(layers, moves),
        spec_disjoint(layers),
        spec_search(layers, moves, target, steps) matches Ok(Some(_)),
    ensures
        ({
            let last = spec_final_layers(layers, moves, target, steps);
            &&& spec_search(layers, moves, target, steps) matches Ok(Some(ids)) && ids.len() == last.len() - 1
            &&& last.len() > layers.len()
            &&& spec_closed(last, moves)
            &&& spec_disjoint(last)
            &&& last[0] == layers[0]
            &&& spec_has(last.last(), target)
        }),
    decreases steps,
{
    if steps > 0 {
        let grown = spec_step(layers, moves);
        lemma_step_linked(layers, moves);
        lemma_step_closed(layers, moves);
        lemma_step_disjoint(layers, moves);
        if spec_has(grown.last(), target) {
            lemma_result_ok(grown, moves, target, grown.len() - 1);
        } else {
            lemma_search_first(grown, moves, target, (steps - 1) as nat);
        }
    }
}

/// With moves that undo themselves, the search from the identity alone finds
/// a shortest way: no fewer moves lead from the identity to the target than the
/// moves that the search finds.
pub proof fn lemma_bfs_shortest<T: CXCircuit>(target: T, moves: Seq<T>, max_steps: nat, way: Seq<usize>)
    requires
        spec_self_undoing(moves),
        moves.len() <= usize::MAX,
        spec_bfs(target, moves, max_steps) matches Ok(Some(_)),
        spec_ids_below(way, moves.len() as int),
        spec_walk(T::spec_new(), moves, way) == target,
    ensures
        spec_bfs(target, moves, max_steps) matches Ok(Some(ids)) && ids.len() <= way.len(),
{
    let root = T::spec_new();
    let first = spec_start(root);
    assert(first[0] == seq![(root, usize::MAX)]);
    assert(first[0][0].0 == root);
    lemma_search_first(first, moves, target, max_steps);
    let last = spec_final_layers(first, moves, target, max_steps);
    if way.len() < last.len() - 1 {
        lemma_walk_within(last, moves, root, way);
        let j = choose|j: int| 0 <= j <= way.len() && j < last.len() && spec_has(#[trigger] last[j], target);
        let k = choose|k: int| 0 <= k < last.last().len() && (#[trigger] last.last()[k]).0 == target;
        assert(spec_apart(last, j, last.len() - 1, k));
    }
}

/// A search keeps the layers that it has.
pub proof fn lemma_final_keeps<T: CXCircuit>(
    layers: Seq<Seq<(T, usize)>>,
    moves: Seq<T>,
    target: T,
    steps: nat,
    d: int,
)
    requires
        0 <= d < layers.len(),
    ensures
        spec_final_layers(layers, moves, target, steps).len() >= layers.len(),
        spec_final_layers(layers, moves, target, steps)[d] == layers[d],
    decreases steps,
{
    if steps > 0 {
        let grown = spec_step(layers, moves);
        if !spec_has(grown.last(), target) {
            lemma_final_keeps(grown, moves, target, (steps - 1) as nat, d);
        }
    }
}

/// Where a search ends without its target, it has made all its steps, and none
/// of the layers that it made has the target.
pub proof fn lemma_search_none<T: CXCircuit>(layers: Seq<Seq<(T, usize)>>, moves: Seq<T>, target: T, steps: nat)
    requires
        layers.len() >= 1,
        spec_closed(layers, moves),
        spec_search(layers, moves, target, steps) matches Ok(None),
    ensures
        ({
            let last = spec_final_layers(layers, moves, target, steps);
            &&& last.len() == layers.len() + steps
            &&& spec_closed(last, moves)
            &&& last[0] == layers[0]
            &&& forall|d: int| layers.len() <= d < last.len() ==> !spec_has(#[trigger] last[d], target)
        }),
    decreases steps,
{
    if steps > 0 {
        let grown = spec_step(layers, moves);
        lemma_step_closed(layers, moves);
        assert(grown[0] == layers[0]);
        lemma_search_none(grown, moves, target, (steps - 1) as nat);
        let last = spec_final_layers(layers, moves, target, steps);
        assert forall|d: int| layers.len() <= d < last.len() implies !spec_has(#[trigger] last[d], target) by {
            if d == layers.len() {
                lemma_final_keeps(grown, moves, target, (steps - 1) as nat, d);
                assert(grown[d] == grown.last());
            }
        }
    }
}

/// With moves that undo themselves, the search from the identity alone finds
/// a target that is not the identity wherever no more moves than its steps
/// lead to it.
pub proof fn lemma_bfs_complete<T: CXCircuit>(target: T, moves: Seq<T>, max_steps: nat, way: Seq<usize>)
    requires
        spec_self_undoing(moves),
        moves.len() <= usize::MAX,
        target != T::spec_new(),
        spec_ids_below(way, moves.len() as int),
        spec_walk(T::spec_new(), moves, way) == target,
        way.len() <= max_steps,
    ensures
        spec_bfs(target, moves, max_steps) matches Ok(Some(_)),
{
    let root = T::spec_new();
    let first = spec_start(root);
    assert(first[0] == seq![(root, usize::MAX)]);
    assert(first[0][0].0 == root);
    lemma_bfs_ok(target, moves, max_steps);
    if spec_bfs(target, moves, max_steps) matches Ok(None) {
        lemma_search_none(first, moves, target, max_steps);
        let last = spec_final_layers(first, moves, target, max_steps);
        lemma_walk_within(last, moves, root, way);
        let j = choose|j: int| 0 <= j <= way.len() && j < last.len() && spec_has(#[trigger] last[j], target);
        if j == 0 {
            let k = choose|k: int| 0 <= k < last[0].len() && (#[trigger] last[0][k]).0 == target;
            assert(false);
        } else {
            assert(!spec_has(last[j], target));
        }
    }
}

} // verus!
