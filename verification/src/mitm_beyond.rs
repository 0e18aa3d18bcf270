//! What the search from both ends finds beyond its layers: where the least
//! number of moves to the target is more than twice and at most three times
//! the number of rounds, it finds a way of that number of moves.

use vstd::prelude::*;
use crate::bfs::{spec_apply_moves, spec_extrapolate, spec_ids_below, spec_meet, spec_mitm_bfs, spec_start};
use crate::bfs_layers::{lemma_backtrack_exact, lemma_walk_concat, lemma_walk_within, spec_walk};
use crate::bfs_sound::lemma_meet_len;
use crate::bfs_ways::{lemma_apply_moves_in, lemma_result_ok, spec_self_undoing};
use crate::circ_moves::spec_has;
use crate::cx_circuit::CXCircuit;
use crate::mitm_shortest::{lemma_layer_way, lemma_meet_first, lemma_meet_none, lemma_walk_back, spec_exact};

verus! {

/// Whether no fewer than `least` moves lead from `root` to `target`.
pub open spec fn spec_least<T: CXCircuit>(root: T, moves: Seq<T>, target: T, least: nat) -> bool {
    forall|way: Seq<usize>|
        spec_ids_below(way, moves.len() as int) && #[trigger] spec_walk(root, moves, way) == target ==> way.len()
            >= least
}

/// Whether a circuit composed with the circuit that moves lead to from the
/// identity is the circuit that these moves lead to from the first.
pub open spec fn spec_products_walk<T: CXCircuit>(moves: Seq<T>) -> bool {
    forall|c: T, way: Seq<usize>|
        spec_ids_below(way, moves.len() as int) ==> c.spec_mult_transpose(
            &spec_walk(T::spec_new(), moves, way).spec_transpose(),
        ) == #[trigger] spec_walk(c, moves, way)
}

/// Where a pair of circuits has its product in `back`, a pair is found.
pub proof fn lemma_apply_moves_some<T: CXCircuit>(
    frontier: Seq<(T, usize)>,
    mids: Seq<(T, usize)>,
    back: Seq<(T, usize)>,
    i: int,
    j: int,
    p: int,
    q: int,
)
    requires
        0 <= i,
        0 <= j,
        0 <= p < frontier.len(),
        0 <= q < mids.len(),
        p > i || (p == i && q >= j),
        spec_has(back, frontier[p].0.spec_mult_transpose(&mids[q].0.spec_transpose())),
    ensures
        spec_apply_moves(frontier, mids, back, i, j) is Some,
    decreases frontier.len() - i, mids.len() - j,
{
    if j >= mids.len() {
        lemma_apply_moves_some(frontier, mids, back, i + 1, 0, p, q);
    } else if spec_has(back, frontier[i].0.spec_mult_transpose(&mids[j].0.spec_transpose())) {
    } else {
        lemma_apply_moves_some(frontier, mids, back, i, j + 1, p, q);
    }
}

/// Gives a way from the root to the target through a product: the way to the
/// second circuit after the way to the first, then the way from the target to
/// the product taken backwards.
pub proof fn lemma_three_ways<T: CXCircuit>(
    forward: Seq<Seq<(T, usize)>>,
    backward: Seq<Seq<(T, usize)>>,
    moves: Seq<T>,
    target: T,
    first: T,
    mid: T,
    jf: int,
    jm: int,
    jb: int,
) -> (way: Seq<usize>)
    requires
        spec_self_undoing(moves),
        spec_products_walk(moves),
        spec_exact(forward, moves, T::spec_new()),
        spec_exact(backward, moves, target),
        0 <= jf < forward.len(),
        0 <= jm < forward.len(),
        0 <= jb < backward.len(),
        spec_has(forward[jf], first),
        spec_has(forward[jm], mid),
        spec_has(backward[jb], first.spec_mult_transpose(&mid.spec_transpose())),
    ensures
        spec_ids_below(way, moves.len() as int),
        spec_walk(T::spec_new(), moves, way) == target,
        way.len() == jf + jm + jb,
{
    let root = T::spec_new();
    let product = first.spec_mult_transpose(&mid.spec_transpose());
    let to_first = lemma_layer_way(forward, moves, root, first, jf);
    let to_mid = lemma_layer_way(forward, moves, root, mid, jm);
    let to_product = lemma_layer_way(backward, moves, target, product, jb);
    assert(spec_walk(first, moves, to_mid) == product);
    lemma_walk_concat(root, moves, to_first, to_mid);
    lemma_walk_back(target, moves, to_product);
    let front = to_first + to_mid;
    let way = front + to_product.reverse();
    lemma_walk_concat(root, moves, front, to_product.reverse());
    assert forall|k: int| 0 <= k < way.len() implies (#[trigger] way[k]) < moves.len() by {
        if k < to_first.len() {
            assert(way[k] == to_first[k]);
        } else if k < front.len() {
            assert(way[k] == to_mid[k - to_first.len()]);
        } else {
            assert(way[k] == to_product.reverse()[k - front.len()]);
        }
    }
    way
}

/// Whether circuit `p` of the last forward layer and circuit `q` of the
/// forward layer `e` have their product in the last backward layer.
pub open spec fn spec_pair_meets<T: CXCircuit>(
    forward: Seq<Seq<(T, usize)>>,
    backward: Seq<Seq<(T, usize)>>,
    e: int,
    p: int,
    q: int,
) -> bool {
    &&& 0 <= p < forward.last().len()
    &&& 0 <= q < forward[e].len()
    &&& spec_has(backward.last(), forward.last()[p].0.spec_mult_transpose(&forward[e][q].0.spec_transpose()))
}

/// A least way of twice the steps and `e` moves more gives a pair: the circuit
/// after its first part is in the last forward layer, the circuit of its
/// middle part in the forward layer `e`, and their product in the last
/// backward layer.
pub proof fn lemma_split_pair<T: CXCircuit>(
    forward: Seq<Seq<(T, usize)>>,
    backward: Seq<Seq<(T, usize)>>,
    moves: Seq<T>,
    target: T,
    way: Seq<usize>,
    e: int,
) -> (pair: (int, int))
    requires
        spec_self_undoing(moves),
        spec_products_walk(moves),
        spec_exact(forward, moves, T::spec_new()),
        spec_exact(backward, moves, target),
        forward.len() == backward.len(),
        1 <= e < forward.len(),
        way.len() == 2 * (forward.len() - 1) + e,
        spec_ids_below(way, moves.len() as int),
        spec_walk(T::spec_new(), moves, way) == target,
        spec_least(T::spec_new(), moves, target, way.len()),
    ensures
        spec_pair_meets(forward, backward, e, pair.0, pair.1),
{
    let root = T::spec_new();
    let s = forward.len() - 1;
    let n = way.len() as int;
    let w1 = way.subrange(0, s);
    let w2 = way.subrange(s, s + e);
    let w3 = way.subrange(s + e, n);
    let w12 = w1 + w2;
    let w23 = w2 + w3;
    assert(way =~= w1 + w23);
    assert(way =~= w12 + w3);
    assert forall|k: int| 0 <= k < w1.len() implies (#[trigger] w1[k]) < moves.len() by {
        assert(w1[k] == way[k]);
    }
    assert forall|k: int| 0 <= k < w2.len() implies (#[trigger] w2[k]) < moves.len() by {
        assert(w2[k] == way[k + s]);
    }
    assert forall|k: int| 0 <= k < w3.len() implies (#[trigger] w3[k]) < moves.len() by {
        assert(w3[k] == way[k + s + e]);
    }
    let first = spec_walk(root, moves, w1);
    let mid = spec_walk(root, moves, w2);
    let v = spec_walk(root, moves, w12);
    lemma_walk_concat(root, moves, w1, w2);
    lemma_walk_concat(root, moves, w1, w23);
    lemma_walk_concat(root, moves, w12, w3);
    lemma_walk_concat(first, moves, w2, w3);
    assert(forward[0][0].0 == root);
    assert(backward[0][0].0 == target);
    // The first part leads into the last forward layer.
    lemma_walk_within(forward, moves, root, w1);
    let j1 = choose|j: int| 0 <= j <= w1.len() && j < forward.len() && spec_has(#[trigger] forward[j], first);
    if j1 < s {
        let short = lemma_layer_way(forward, moves, root, first, j1);
        let other = short + w23;
        lemma_walk_concat(root, moves, short, w23);
        assert forall|k: int| 0 <= k < other.len() implies (#[trigger] other[k]) < moves.len() by {
            if k < short.len() {
                assert(other[k] == short[k]);
            } else {
                assert(other[k] == way[k - short.len() + s]);
            }
        }
        assert(spec_walk(root, moves, other) == target);
        assert(false);
    }
    // The middle part leads into the forward layer of its length.
    lemma_walk_within(forward, moves, root, w2);
    let j2 = choose|j: int| 0 <= j <= w2.len() && j < forward.len() && spec_has(#[trigger] forward[j], mid);
    assert(spec_walk(first, moves, w2) == first.spec_mult_transpose(&mid.spec_transpose()));
    if j2 < e {
        let short = lemma_layer_way(forward, moves, root, mid, j2);
        assert(spec_walk(first, moves, short) == first.spec_mult_transpose(&mid.spec_transpose()));
        let front = w1 + short;
        let other = front + w3;
        lemma_walk_concat(root, moves, w1, short);
        lemma_walk_concat(root, moves, front, w3);
        assert forall|k: int| 0 <= k < other.len() implies (#[trigger] other[k]) < moves.len() by {
            if k < w1.len() {
                assert(other[k] == w1[k]);
            } else if k < front.len() {
                assert(other[k] == short[k - w1.len()]);
            } else {
                assert(other[k] == w3[k - front.len()]);
            }
        }
        assert(spec_walk(root, moves, other) == target);
        assert(false);
    }
    // The last part, taken backwards, leads from the target into the last backward layer.
    lemma_walk_back(v, moves, w3);
    let back = w3.reverse();
    assert(spec_walk(target, moves, back) == v);
    lemma_walk_within(backward, moves, target, back);
    let j3 = choose|j: int| 0 <= j <= back.len() && j < backward.len() && spec_has(#[trigger] backward[j], v);
    if j3 < s {
        let short = lemma_layer_way(backward, moves, target, v, j3);
        lemma_walk_back(target, moves, short);
        let other = w12 + short.reverse();
        lemma_walk_concat(root, moves, w12, short.reverse());
        assert forall|k: int| 0 <= k < other.len() implies (#[trigger] other[k]) < moves.len() by {
            if k < w12.len() {
                assert(other[k] == way[k]);
            } else {
                assert(other[k] == short.reverse()[k - w12.len()]);
            }
        }
        assert(spec_walk(root, moves, other) == target);
        assert(false);
    }
    let p = choose|p: int| 0 <= p < forward[s].len() && (#[trigger] forward[s][p]).0 == first;
    let q = choose|q: int| 0 <= q < forward[e].len() && (#[trigger] forward[e][q]).0 == mid;
    assert(forward[s] == forward.last());
    assert(backward[s] == backward.last());
    (p, q)
}

/// Where the least number of moves to the target is twice the steps and `e`
/// more, the search beyond the layers, from a layer up to `e` on, finds a way
/// of that number of moves.
pub proof fn lemma_extrapolate_least<T: CXCircuit>(
    forward: Seq<Seq<(T, usize)>>,
    backward: Seq<Seq<(T, usize)>>,
    moves: Seq<T>,
    target: T,
    way: Seq<usize>,
    e: int,
    extra: int,
)
    requires
        spec_self_undoing(moves),
        spec_products_walk(moves),
        spec_exact(forward, moves, T::spec_new()),
        spec_exact(backward, moves, target),
        forward.len() == backward.len(),
        1 <= extra <= e < forward.len(),
        way.len() == 2 * (forward.len() - 1) + e,
        spec_ids_below(way, moves.len() as int),
        spec_walk(T::spec_new(), moves, way) == target,
        spec_least(T::spec_new(), moves, target, way.len()),
    ensures
        spec_extrapolate(forward, backward, moves, extra) matches Ok(Some(ids)) && ids.len() == way.len(),
    decreases e - extra,
{
    let s = forward.len() - 1;
    lemma_apply_moves_in(forward.last(), forward[extra], backward.last(), 0, 0);
    if extra < e {
        match spec_apply_moves(forward.last(), forward[extra], backward.last(), 0, 0) {
            Some((i, j)) => {
                let first = forward.last()[i].0;
                let mid = forward[extra][j].0;
                assert(spec_has(forward[s], first));
                assert(spec_has(forward[extra], mid));
                let other = lemma_three_ways(forward, backward, moves, target, first, mid, s, extra, s);
                assert(spec_walk(T::spec_new(), moves, other) == target);
                assert(false);
            },
            None => {
                lemma_extrapolate_least(forward, backward, moves, target, way, e, extra + 1);
            },
        }
    } else {
        let pair = lemma_split_pair(forward, backward, moves, target, way, e);
        lemma_apply_moves_some(forward.last(), forward[e], backward.last(), 0, 0, pair.0, pair.1);
        let found = spec_apply_moves(forward.last(), forward[e], backward.last(), 0, 0)->0;
        let first = forward.last()[found.0].0;
        let mid = forward[e][found.1].0;
        let product = first.spec_mult_transpose(&mid.spec_transpose());
        assert(spec_has(forward[s], first));
        assert(spec_has(forward[e], mid));
        assert(spec_has(backward[s], product));
        lemma_result_ok(backward, moves, product, s);
        lemma_result_ok(forward, moves, mid, e);
        lemma_result_ok(forward, moves, first, s);
        lemma_backtrack_exact(Seq::empty(), backward, moves, product, s, s);
        lemma_backtrack_exact(Seq::empty(), forward, moves, mid, s, e);
        lemma_backtrack_exact(Seq::empty(), forward, moves, first, s, s);
    }
}

/// With moves that undo themselves, and whose products are ways, the search
/// from both ends finds beyond its layers a shortest way: where the least
/// number of moves to the target is more than twice and at most three times
/// the number of rounds, it finds a way of that number of moves.
pub proof fn lemma_mitm_beyond<T: CXCircuit>(target: T, moves: Seq<T>, max_steps: nat, way: Seq<usize>)
    requires
        spec_self_undoing(moves),
        spec_products_walk(moves),
        moves.len() <= usize::MAX,
        spec_ids_below(way, moves.len() as int),
        spec_walk(T::spec_new(), moves, way) == target,
        spec_least(T::spec_new(), moves, target, way.len()),
        2 * max_steps < way.len() <= 3 * max_steps,
    ensures
        spec_meet(spec_start(T::spec_new()), spec_start(target), moves, max_steps).0 is None,
        spec_mitm_bfs(target, moves, max_steps, true) matches Ok(Some(ids)) && ids.len() == way.len(),
{
    let root = T::spec_new();
    let forward0 = spec_start(root);
    let backward0 = spec_start(target);
    assert(forward0[0] == seq![(root, usize::MAX)]);
    assert(backward0[0] == seq![(target, usize::MAX)]);
    let met = spec_meet(forward0, backward0, moves, max_steps);
    lemma_meet_len(forward0, backward0, moves, max_steps);
    if met.0 is Some {
        lemma_meet_first(forward0, backward0, moves, root, target, max_steps);
        let circ = met.0->0;
        let none = Seq::<usize>::empty();
        assert(spec_walk(circ, moves, none) == circ);
        assert(spec_walk(root, moves, none) == root);
        assert(circ.spec_mult_transpose(&root.spec_transpose()) == circ);
        assert(met.1[0][0].0 == root);
        assert(spec_has(met.1[0], root));
        let other = lemma_three_ways(
            met.1,
            met.2,
            moves,
            target,
            circ,
            root,
            met.1.len() - 1,
            0,
            met.2.len() - 1,
        );
        assert(spec_walk(root, moves, other) == target);
        assert(false);
    }
    lemma_meet_none(forward0, backward0, moves, root, target, max_steps);
    lemma_extrapolate_least(met.1, met.2, moves, target, way, way.len() - 2 * max_steps, 1);
}

} // verus!
