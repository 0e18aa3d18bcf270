//! The search from both ends meets wherever a way of no more moves than its
//! steps on both sides exists, and then finds a shortest way: the layers of
//! either search hold each circuit at its distance from the root, and the
//! searches compare their layers in the order of the lengths.

use vstd::prelude::*;
use crate::bfs::{spec_ids_below, spec_intersect, spec_meet, spec_mitm_bfs, spec_start, spec_step};
use crate::bfs_layers::{lemma_step_sound, lemma_walk_concat, lemma_walk_within, spec_sound_layers, spec_walk};
use crate::bfs_ways::{
    lemma_intersect_in, lemma_result_ok, spec_comes_from, spec_layer_from, spec_linked, spec_self_undoing,
};
use crate::circ_moves::spec_has;
use crate::cx_circuit::CXCircuit;

verus! {

/// With moves that undo themselves, a way taken backwards leads back.
pub proof fn lemma_walk_back<T: CXCircuit>(root: T, moves: Seq<T>, way: Seq<usize>)
    requires
        spec_self_undoing(moves),
        spec_ids_below(way, moves.len() as int),
    ensures
        spec_walk(spec_walk(root, moves, way), moves, way.reverse()) == root,
        spec_ids_below(way.reverse(), moves.len() as int),
    decreases way.len(),
{
    let back = way.reverse();
    assert forall|k: int| 0 <= k < back.len() implies (#[trigger] back[k]) < moves.len() by {
        assert(back[k] == way[way.len() - 1 - k]);
    }
    if way.len() > 0 {
        let front = way.drop_last();
        let m = way.last();
        assert(way[way.len() - 1] < moves.len());
        assert forall|k: int| 0 <= k < front.len() implies (#[trigger] front[k]) < moves.len() by {
            assert(front[k] == way[k]);
        }
        lemma_walk_back(root, moves, front);
        let y = spec_walk(root, moves, front);
        let end = spec_walk(root, moves, way);
        assert(end == y.spec_mult_transpose(&moves[m as int]));
        let one = seq![m];
        assert(back =~= one + front.reverse());
        lemma_walk_concat(end, moves, one, front.reverse());
        assert(one.drop_last() =~= Seq::<usize>::empty());
        assert(spec_walk(end, moves, one) == spec_walk(end, moves, one.drop_last()).spec_mult_transpose(
            &moves[one.last() as int],
        ));
        assert(spec_walk(end, moves, one) == end.spec_mult_transpose(&moves[m as int]));
    }
}

/// In linked layers, whose first layer holds the root alone, as many moves
/// lead from the root to a circuit of a layer as the number of the layer.
pub proof fn lemma_layer_way<T: CXCircuit>(layers: Seq<Seq<(T, usize)>>, moves: Seq<T>, root: T, x: T, j: int) -> (way:
    Seq<usize>)
    requires
        spec_self_undoing(moves),
        spec_linked(layers, moves),
        0 <= j < layers.len(),
        layers[0] == seq![(root, usize::MAX)],
        spec_has(layers[j], x),
    ensures
        way.len() == j,
        spec_ids_below(way, moves.len() as int),
        spec_walk(root, moves, way) == x,
    decreases j,
{
    let k = choose|k: int| 0 <= k < layers[j].len() && (#[trigger] layers[j][k]).0 == x;
    if j == 0 {
        assert(layers[0][k].0 == root);
        Seq::empty()
    } else {
        assert(spec_layer_from(layers[j], layers[j - 1], moves));
        assert(spec_comes_from(layers[j][k], layers[j - 1], moves));
        let m = layers[j][k].1;
        let parent = x.spec_mult_transpose(&moves[m as int]);
        let front = lemma_layer_way(layers, moves, root, parent, j - 1);
        let way = front.push(m);
        assert(way.drop_last() =~= front);
        assert(parent.spec_mult_transpose(&moves[m as int]) == x);
        way
    }
}

/// Whether layer `f` of one search and layer `g` of the other are compared by
/// the search from both ends.
pub open spec fn spec_compared(f: int, g: int) -> bool {
    f >= 1 && g >= 0 && (f == g || f == g + 1)
}

/// Whether layer `g` of `backward` is without circuit `k` of layer `f` of `forward`.
pub open spec fn spec_unmet_at<T>(
    forward: Seq<Seq<(T, usize)>>,
    backward: Seq<Seq<(T, usize)>>,
    f: int,
    g: int,
    k: int,
) -> bool {
    !spec_has(backward[g], forward[f][k].0)
}

/// Whether the layers that are compared, and whose numbers add up to less
/// than `sum`, share no circuit.
pub open spec fn spec_unmet<T>(forward: Seq<Seq<(T, usize)>>, backward: Seq<Seq<(T, usize)>>, sum: int) -> bool {
    forall|f: int, g: int, k: int|
        spec_compared(f, g) && f + g < sum && f < forward.len() && g < backward.len() && 0 <= k < forward[f].len()
            ==> #[trigger] spec_unmet_at(forward, backward, f, g, k)
}

/// Where two layers share no circuit, the second has none of the first.
pub proof fn lemma_intersect_none<T>(a: Seq<(T, usize)>, b: Seq<(T, usize)>, i: int)
    requires
        0 <= i,
        spec_intersect(a, b, i) is None,
    ensures
        forall|k: int| i <= k < a.len() ==> !spec_has(b, (#[trigger] a[k]).0),
    decreases a.len() - i,
{
    if i < a.len() {
        lemma_intersect_none(a, b, i + 1);
    }
}

/// Whether the layers are those of a search from `root`: they are sound, and
/// the first holds the root alone.
pub open spec fn spec_exact<T: CXCircuit>(layers: Seq<Seq<(T, usize)>>, moves: Seq<T>, root: T) -> bool {
    spec_sound_layers(layers, moves) && layers[0] == seq![(root, usize::MAX)]
}

/// A step keeps the layers those of a search from the same root.
pub proof fn lemma_step_exact<T: CXCircuit>(layers: Seq<Seq<(T, usize)>>, moves: Seq<T>, root: T)
    requires
        spec_self_undoing(moves),
        moves.len() <= usize::MAX,
        spec_exact(layers, moves, root),
    ensures
        spec_exact(spec_step(layers, moves), moves, root),
        spec_step(layers, moves).len() == layers.len() + 1,
        forall|d: int| 0 <= d < layers.len() ==> spec_step(layers, moves)[d] == layers[d],
{
    lemma_step_sound(layers, moves);
}

/// Where the two searches meet, both last layers have the circuit, and no two
/// layers that were compared before share a circuit.
pub proof fn lemma_meet_first<T: CXCircuit>(
    forward: Seq<Seq<(T, usize)>>,
    backward: Seq<Seq<(T, usize)>>,
    moves: Seq<T>,
    root: T,
    target: T,
    rounds: nat,
)
    requires
        spec_self_undoing(moves),
        moves.len() <= usize::MAX,
        spec_exact(forward, moves, root),
        spec_exact(backward, moves, target),
        forward.len() == backward.len(),
        spec_unmet(forward, backward, forward.len() + backward.len() - 1),
        spec_meet(forward, backward, moves, rounds).0 is Some,
    ensures
        ({
            let met = spec_meet(forward, backward, moves, rounds);
            &&& spec_exact(met.1, moves, root)
            &&& spec_exact(met.2, moves, target)
            &&& spec_compared(met.1.len() - 1, met.2.len() - 1)
            &&& spec_has(met.1.last(), met.0->0)
            &&& spec_has(met.2.last(), met.0->0)
            &&& spec_unmet(met.1, met.2, met.1.len() + met.2.len() - 2)
        }),
    decreases rounds,
{
    if rounds > 0 {
        let top = forward.len() as int;
        let forward2 = spec_step(forward, moves);
        lemma_step_exact(forward, moves, root);
        lemma_intersect_in(forward2.last(), backward.last(), 0);
        assert forall|f: int, g: int, k: int|
            spec_compared(f, g) && f + g < 2 * top - 1 && f < forward2.len() && g < backward.len() && 0 <= k
                < forward2[f].len() implies #[trigger] spec_unmet_at(forward2, backward, f, g, k) by {
            assert(forward2[f] == forward[f]);
            assert(spec_unmet_at(forward, backward, f, g, k));
        }
        if spec_intersect(forward2.last(), backward.last(), 0) is None {
            lemma_intersect_none(forward2.last(), backward.last(), 0);
            let backward2 = spec_step(backward, moves);
            lemma_step_exact(backward, moves, target);
            lemma_intersect_in(forward2.last(), backward2.last(), 0);
            assert forall|f: int, g: int, k: int|
                spec_compared(f, g) && f + g < 2 * top && f < forward2.len() && g < backward2.len() && 0 <= k
                    < forward2[f].len() implies #[trigger] spec_unmet_at(forward2, backward2, f, g, k) by {
                assert(backward2[g] == backward[g]);
                if f + g < 2 * top - 1 {
                    assert(spec_unmet_at(forward2, backward, f, g, k));
                } else {
                    assert(f == top && g == top - 1);
                    assert(forward2[f] == forward2.last());
                    assert(backward[g] == backward.last());
                }
            }
            if spec_intersect(forward2.last(), backward2.last(), 0) is None {
                lemma_intersect_none(forward2.last(), backward2.last(), 0);
                assert forall|f: int, g: int, k: int|
                    spec_compared(f, g) && f + g < 2 * top + 1 && f < forward2.len() && g < backward2.len() && 0 <= k
                        < forward2[f].len() implies #[trigger] spec_unmet_at(forward2, backward2, f, g, k) by {
                    if f + g < 2 * top {
                    } else {
                        assert(f == top && g == top);
                        assert(forward2[f] == forward2.last());
                        assert(backward2[g] == backward2.last());
                    }
                }
                lemma_meet_first(forward2, backward2, moves, root, target, (rounds - 1) as nat);
            }
        }
    }
}

/// Where the layers that are compared, and whose numbers add up to less than
/// `sum`, share no circuit, no way from the root of the forward search to the
/// root of the backward search has fewer than `sum` moves.
#[verifier::rlimit(60)]
pub proof fn lemma_no_shorter_way<T: CXCircuit>(
    forward: Seq<Seq<(T, usize)>>,
    backward: Seq<Seq<(T, usize)>>,
    moves: Seq<T>,
    root: T,
    target: T,
    sum: int,
    way: Seq<usize>,
)
    requires
        spec_self_undoing(moves),
        spec_exact(forward, moves, root),
        spec_exact(backward, moves, target),
        sum <= 2 * (forward.len() - 1) + 1,
        sum <= 2 * (backward.len() - 1) + 1,
        spec_unmet(forward, backward, sum),
        root != target,
        spec_ids_below(way, moves.len() as int),
        spec_walk(root, moves, way) == target,
    ensures
        sum <= way.len(),
    decreases way.len(),
{
    let n = way.len() as int;
    if n < sum {
        let i = (n + 1) / 2;
        assert(n <= 2 * i <= n + 1);
        assert(i <= forward.len() - 1);
        assert(n - i <= backward.len() - 1);
        assert(n - i <= i <= n - i + 1);
        let head = way.subrange(0, i);
        let tail = way.subrange(i, n);
        assert(way =~= head + tail);
        assert forall|k: int| 0 <= k < head.len() implies (#[trigger] head[k]) < moves.len() by {
            assert(head[k] == way[k]);
        }
        assert forall|k: int| 0 <= k < tail.len() implies (#[trigger] tail[k]) < moves.len() by {
            assert(tail[k] == way[k + i]);
        }
        lemma_walk_concat(root, moves, head, tail);
        let v = spec_walk(root, moves, head);
        lemma_walk_back(v, moves, tail);
        let back = tail.reverse();
        assert(spec_walk(target, moves, back) == v);
        assert(forward[0][0].0 == root);
        assert(backward[0][0].0 == target);
        lemma_walk_within(forward, moves, root, head);
        lemma_walk_within(backward, moves, target, back);
        let j = choose|j: int| 0 <= j <= head.len() && j < forward.len() && spec_has(#[trigger] forward[j], v);
        let l = choose|l: int| 0 <= l <= back.len() && l < backward.len() && spec_has(#[trigger] backward[l], v);
        if j < i {
            let short = lemma_layer_way(forward, moves, root, v, j);
            lemma_walk_concat(root, moves, short, tail);
            let other = short + tail;
            assert forall|k: int| 0 <= k < other.len() implies (#[trigger] other[k]) < moves.len() by {
                if k < short.len() {
                    assert(other[k] == short[k]);
                } else {
                    assert(other[k] == tail[k - short.len()]);
                }
            }
            lemma_no_shorter_way(forward, backward, moves, root, target, sum, other);
        } else if l < n - i {
            let short = lemma_layer_way(backward, moves, target, v, l);
            lemma_walk_back(target, moves, short);
            let other = head + short.reverse();
            lemma_walk_concat(root, moves, head, short.reverse());
            assert forall|k: int| 0 <= k < other.len() implies (#[trigger] other[k]) < moves.len() by {
                if k < head.len() {
                    assert(other[k] == head[k]);
                } else {
                    assert(other[k] == short.reverse()[k - head.len()]);
                }
            }
            lemma_no_shorter_way(forward, backward, moves, root, target, sum, other);
        } else {
            if i == 0 {
                assert(v == root);
                let k = choose|k: int| 0 <= k < backward[0].len() && (#[trigger] backward[0][k]).0 == v;
                assert(false);
            }
            let k = choose|k: int| 0 <= k < forward[i].len() && (#[trigger] forward[i][k]).0 == v;
            assert(spec_compared(i, n - i));
            assert(spec_unmet_at(forward, backward, i, n - i, k));
            assert(false);
        }
    }
}

/// With moves that undo themselves, the search from both ends finds a
/// shortest way where its two searches meet: no fewer moves lead from the
/// identity to a target that is not the identity than the moves that it finds.
pub proof fn lemma_mitm_shortest<T: CXCircuit>(target: T, moves: Seq<T>, max_steps: nat, extrapolate: bool, way: Seq<usize>)
    requires
        spec_self_undoing(moves),
        moves.len() <= usize::MAX,
        target != T::spec_new(),
        spec_meet(spec_start(T::spec_new()), spec_start(target), moves, max_steps).0 is Some,
        spec_ids_below(way, moves.len() as int),
        spec_walk(T::spec_new(), moves, way) == target,
    ensures
        spec_mitm_bfs(target, moves, max_steps, extrapolate) matches Ok(Some(ids)) && ids.len() <= way.len(),
{
    let root = T::spec_new();
    let forward0 = spec_start(root);
    let backward0 = spec_start(target);
    assert(forward0[0] == seq![(root, usize::MAX)]);
    assert(backward0[0] == seq![(target, usize::MAX)]);
    lemma_meet_first(forward0, backward0, moves, root, target, max_steps);
    let met = spec_meet(forward0, backward0, moves, max_steps);
    let circ = met.0->0;
    lemma_result_ok(met.2, moves, circ, met.2.len() - 1);
    lemma_result_ok(met.1, moves, circ, met.1.len() - 1);
    lemma_no_shorter_way(met.1, met.2, moves, root, target, met.1.len() + met.2.len() - 2, way);
}

/// With moves that undo themselves, where the two searches meet the circuit
/// found has one move for each step that either search made: the forward
/// search has made as many steps as the backward search, or one more.
pub proof fn lemma_meet_length<T: CXCircuit>(target: T, moves: Seq<T>, max_steps: nat, extrapolate: bool)
    requires
        spec_self_undoing(moves),
        moves.len() <= usize::MAX,
        spec_meet(spec_start(T::spec_new()), spec_start(target), moves, max_steps).0 is Some,
    ensures
        ({
            let met = spec_meet(spec_start(T::spec_new()), spec_start(target), moves, max_steps);
            &&& spec_compared(met.1.len() - 1, met.2.len() - 1)
            &&& spec_mitm_bfs(target, moves, max_steps, extrapolate) matches Ok(Some(ids)) && ids.len() == (met.1.len()
                - 1) + (met.2.len() - 1)
        }),
{
    let root = T::spec_new();
    let forward0 = spec_start(root);
    let backward0 = spec_start(target);
    assert(forward0[0] == seq![(root, usize::MAX)]);
    assert(backward0[0] == seq![(target, usize::MAX)]);
    lemma_meet_first(forward0, backward0, moves, root, target, max_steps);
    let met = spec_meet(forward0, backward0, moves, max_steps);
    let circ = met.0->0;
    lemma_result_ok(met.2, moves, circ, met.2.len() - 1);
    lemma_result_ok(met.1, moves, circ, met.1.len() - 1);
}

/// Where the two searches do not meet, they have made all their rounds, and no
/// two layers that were compared share a circuit.
pub proof fn lemma_meet_none<T: CXCircuit>(
    forward: Seq<Seq<(T, usize)>>,
    backward: Seq<Seq<(T, usize)>>,
    moves: Seq<T>,
    root: T,
    target: T,
    rounds: nat,
)
    requires
        spec_self_undoing(moves),
        moves.len() <= usize::MAX,
        spec_exact(forward, moves, root),
        spec_exact(backward, moves, target),
        forward.len() == backward.len(),
        spec_unmet(forward, backward, forward.len() + backward.len() - 1),
        spec_meet(forward, backward, moves, rounds).0 is None,
    ensures
        ({
            let met = spec_meet(forward, backward, moves, rounds);
            &&& spec_exact(met.1, moves, root)
            &&& spec_exact(met.2, moves, target)
            &&& met.1.len() == forward.len() + rounds
            &&& met.2.len() == backward.len() + rounds
            &&& spec_unmet(met.1, met.2, met.1.len() + met.2.len() - 1)
        }),
    decreases rounds,
{
    if rounds > 0 {
        let top = forward.len() as int;
        let forward2 = spec_step(forward, moves);
        lemma_step_exact(forward, moves, root);
        lemma_intersect_none(forward2.last(), backward.last(), 0);
        let backward2 = spec_step(backward, moves);
        lemma_step_exact(backward, moves, target);
        lemma_intersect_none(forward2.last(), backward2.last(), 0);
        assert forall|f: int, g: int, k: int|
            spec_compared(f, g) && f + g < 2 * top + 1 && f < forward2.len() && g < backward2.len() && 0 <= k
                < forward2[f].len() implies #[trigger] spec_unmet_at(forward2, backward2, f, g, k) by {
            if f + g < 2 * top - 1 {
                assert(forward2[f] == forward[f]);
                assert(backward2[g] == backward[g]);
                assert(spec_unmet_at(forward, backward, f, g, k));
            } else if f + g == 2 * top - 1 {
                assert(f == top && g == top - 1);
                assert(forward2[f] == forward2.last());
                assert(backward2[g] == backward.last());
            } else {
                assert(f == top && g == top);
                assert(forward2[f] == forward2.last());
                assert(backward2[g] == backward2.last());
            }
        }
        lemma_meet_none(forward2, backward2, moves, root, target, (rounds - 1) as nat);
    }
}

/// With moves that undo themselves, the two searches meet wherever no more
/// moves than twice their rounds lead from the identity to a target that is
/// not the identity: the search from both ends then finds a circuit.
pub proof fn lemma_mitm_complete<T: CXCircuit>(target: T, moves: Seq<T>, max_steps: nat, extrapolate: bool, way: Seq<usize>)
    requires
        spec_self_undoing(moves),
        moves.len() <= usize::MAX,
        target != T::spec_new(),
        spec_ids_below(way, moves.len() as int),
        spec_walk(T::spec_new(), moves, way) == target,
        way.len() <= 2 * max_steps,
    ensures
        spec_meet(spec_start(T::spec_new()), spec_start(target), moves, max_steps).0 is Some,
        spec_mitm_bfs(target, moves, max_steps, extrapolate) matches Ok(Some(_)),
{
    let root = T::spec_new();
    let forward0 = spec_start(root);
    let backward0 = spec_start(target);
    assert(forward0[0] == seq![(root, usize::MAX)]);
    assert(backward0[0] == seq![(target, usize::MAX)]);
    let met = spec_meet(forward0, backward0, moves, max_steps);
    if met.0 is None {
        lemma_meet_none(forward0, backward0, moves, root, target, max_steps);
        lemma_no_shorter_way(met.1, met.2, moves, root, target, met.1.len() + met.2.len() - 1, way);
        assert(false);
    }
    crate::bfs_ways::lemma_mitm_ok(target, moves, max_steps, extrapolate);
}

} // verus!
