//! Breadth-first search over circuits: from the identity alone, or from the
//! identity and from the target at once, to meet in the middle.

use vstd::prelude::*;
use crate::bfs_circuits::{lemma_bfs_circuit, lemma_mitm_circuit, spec_gate_moves};
use crate::bfs_layers::{
    lemma_backtrack_exact, lemma_backtrack_walk, lemma_step_sound, spec_sound_layers, spec_walk,
};
use crate::bfs_sound::spec_pairs_of;
use crate::bfs_ways::{lemma_bfs_ok, lemma_mitm_ok, lemma_result_ok, spec_self_undoing};
use crate::circ_moves::{spec_get, spec_has, spec_put, CircMoves};
use crate::cx_circuit::CXCircuit;

verus! {

/// Why a search gave up: the way back through its layers did not end at its
/// root. Layers that steps made with moves that undo themselves never lead here.
#[derive(Clone, Copy, Debug, PartialEq, Eq, Structural)]
pub enum BacktrackError {
    NotAtRoot,
}

/// The moves found, where the way back was found.
pub open spec fn spec_some_moves(back: Result<Seq<usize>, BacktrackError>) -> Result<
    Option<Seq<usize>>,
    BacktrackError,
> {
    match back {
        Ok(ids) => Ok(Some(ids)),
        Err(e) => Err(e),
    }
}

/// The moves found, if moves were found.
pub open spec fn spec_moves_found(found: Result<Option<Seq<usize>>, BacktrackError>) -> Option<Seq<usize>> {
    match found {
        Ok(Some(ids)) => Some(ids),
        _ => None,
    }
}

/// What a way back stands for.
pub open spec fn spec_view_moves(back: Result<Vec<usize>, BacktrackError>) -> Result<Seq<usize>, BacktrackError> {
    match back {
        Ok(ids) => Ok(ids@),
        Err(e) => Err(e),
    }
}

/// What the result of a search stands for.
pub open spec fn spec_view_found(found: Result<Option<Vec<usize>>, BacktrackError>) -> Result<
    Option<Seq<usize>>,
    BacktrackError,
> {
    match found {
        Ok(Some(ids)) => Ok(Some(ids@)),
        Ok(None) => Ok(None),
        Err(e) => Err(e),
    }
}

/// Whether every position of `ids` is one of `n` positions.
pub open spec fn spec_ids_below(ids: Seq<usize>, n: int) -> bool {
    forall|k: int| 0 <= k < ids.len() ==> (#[trigger] ids[k]) < n
}

/// Whether what was found, if anything, are positions below `n`.
pub open spec fn spec_found_below(found: Result<Option<Vec<usize>>, BacktrackError>, n: int) -> bool {
    found matches Ok(Some(ids)) ==> spec_ids_below(ids@, n)
}

/// Whether every move in `layer` is below `bound`.
pub open spec fn spec_moves_below<T>(layer: Seq<(T, usize)>, bound: int) -> bool {
    forall|i: int| 0 <= i < layer.len() ==> (#[trigger] layer[i]).1 < bound
}

/// The layer that follows `circs`, built from `acc` on: each circuit from
/// position `i` on is composed with each move, for circuit `i` from move `j` on;
/// a result that neither `seen1` nor `seen2` has is put with its move.
pub open spec fn spec_collect<T: CXCircuit>(
    acc: Seq<(T, usize)>,
    circs: Seq<(T, usize)>,
    moves: Seq<T>,
    seen1: Seq<(T, usize)>,
    seen2: Seq<(T, usize)>,
    i: int,
    j: int,
) -> Seq<(T, usize)>
    decreases circs.len() - i, moves.len() - j,
{
    if i < 0 || j < 0 || i >= circs.len() {
        acc
    } else if j >= moves.len() {
        spec_collect(acc, circs, moves, seen1, seen2, i + 1, 0)
    } else {
        let made = circs[i].0.spec_mult_transpose(&moves[j]);
        let next = if !spec_has(seen1, made) && !spec_has(seen2, made) {
            spec_put(acc, made, j as usize)
        } else {
            acc
        };
        spec_collect(next, circs, moves, seen1, seen2, i, j + 1)
    }
}

/// The layers after one more step: the circuits of the last layer composed with
/// every move, without those that the last two layers have.
pub open spec fn spec_step<T: CXCircuit>(layers: Seq<Seq<(T, usize)>>, moves: Seq<T>) -> Seq<Seq<(T, usize)>> {
    let last = layers.last();
    let before = if layers.len() > 1 {
        layers[layers.len() - 2]
    } else {
        Seq::empty()
    };
    layers.push(spec_collect(Seq::empty(), last, moves, last, before, 0, 0))
}

/// The way back from `curr` through the layers from `d` down to 1, after the
/// moves `acc`: where layer `d` has the circuit, its move is noted and undone;
/// where it has not, the layer is passed over. Gives the moves and the circuit
/// that is left.
pub open spec fn spec_backtrack<T: CXCircuit>(
    acc: Seq<usize>,
    layers: Seq<Seq<(T, usize)>>,
    moves: Seq<T>,
    curr: T,
    d: int,
) -> (Seq<usize>, T)
    decreases d,
{
    if d <= 0 {
        (acc, curr)
    } else {
        match spec_get(layers[d], curr) {
            Some(m) => spec_backtrack(
                acc.push(m),
                layers,
                moves,
                curr.spec_mult_transpose(&moves[m as int]),
                d - 1,
            ),
            None => spec_backtrack(acc, layers, moves, curr, d - 1),
        }
    }
}

/// The moves on the way back from `circ` to the root, last move first; an
/// error where the way back does not end at the root.
pub open spec fn spec_backtrack_result<T: CXCircuit>(layers: Seq<Seq<(T, usize)>>, moves: Seq<T>, circ: T) -> Result<
    Seq<usize>,
    BacktrackError,
> {
    let back = spec_backtrack(Seq::empty(), layers, moves, circ, layers.len() - 1);
    if spec_has(layers[0], back.1) {
        Ok(back.0)
    } else {
        Err(BacktrackError::NotAtRoot)
    }
}

/// The first circuit of `a` from position `i` on that `b` has.
pub open spec fn spec_intersect<T>(a: Seq<(T, usize)>, b: Seq<(T, usize)>, i: int) -> Option<T>
    decreases a.len() - i,
{
    if i < 0 || i >= a.len() {
        None
    } else if spec_has(b, a[i].0) {
        Some(a[i].0)
    } else {
        spec_intersect(a, b, i + 1)
    }
}

/// The result of a search from the identity alone with `steps` steps left.
pub open spec fn spec_search<T: CXCircuit>(layers: Seq<Seq<(T, usize)>>, moves: Seq<T>, target: T, steps: nat) -> Result<
    Option<Seq<usize>>,
    BacktrackError,
>
    decreases steps,
{
    if steps == 0 {
        Ok(None)
    } else {
        let grown = spec_step(layers, moves);
        if spec_has(grown.last(), target) {
            spec_some_moves(spec_backtrack_result(grown, moves, target))
        } else {
            spec_search(grown, moves, target, (steps - 1) as nat)
        }
    }
}

/// The layers of a search that starts at `start`.
pub open spec fn spec_start<T>(start: T) -> Seq<Seq<(T, usize)>> {
    seq![seq![(start, usize::MAX)]]
}

/// The result of `bfs`.
pub open spec fn spec_bfs<T: CXCircuit>(target: T, moves: Seq<T>, max_steps: nat) -> Result<
    Option<Seq<usize>>,
    BacktrackError,
> {
    spec_search(spec_start(T::spec_new()), moves, target, max_steps)
}

/// How the two searches meet within `rounds` rounds: in each round the forward
/// search steps and its new layer is held against the last layer of the
/// backward search; then the backward search steps and is held against it
/// again. Gives the circuit at which they meet, if they do, and the layers of
/// both searches.
pub open spec fn spec_meet<T: CXCircuit>(
    forward: Seq<Seq<(T, usize)>>,
    backward: Seq<Seq<(T, usize)>>,
    moves: Seq<T>,
    rounds: nat,
) -> (Option<T>, Seq<Seq<(T, usize)>>, Seq<Seq<(T, usize)>>)
    decreases rounds,
{
    if rounds == 0 {
        (None, forward, backward)
    } else {
        let forward2 = spec_step(forward, moves);
        match spec_intersect(forward2.last(), backward.last(), 0) {
            Some(circ) => (Some(circ), forward2, backward),
            None => {
                let backward2 = spec_step(backward, moves);
                match spec_intersect(forward2.last(), backward2.last(), 0) {
                    Some(circ) => (Some(circ), forward2, backward2),
                    None => spec_meet(forward2, backward2, moves, (rounds - 1) as nat),
                }
            },
        }
    }
}

/// The moves of a circuit that passes through `circ`, where the two searches
/// met: those of the backward search in the order in which it made them, then
/// those of the forward search, last first.
pub open spec fn spec_backtrack_mitm<T: CXCircuit>(
    forward: Seq<Seq<(T, usize)>>,
    backward: Seq<Seq<(T, usize)>>,
    moves: Seq<T>,
    circ: T,
) -> Result<Seq<usize>, BacktrackError> {
    match (spec_backtrack_result(backward, moves, circ), spec_backtrack_result(forward, moves, circ)) {
        (Ok(back), Ok(forth)) => Ok(back.reverse() + forth),
        _ => Err(BacktrackError::NotAtRoot),
    }
}

/// The moves of a circuit in three parts: from the target back to
/// `circ_backward`, then the circuit `circ_mid` of the forward search, then the
/// way of the forward search to `circ_forward`.
pub open spec fn spec_backtrack_mitm_extra<T: CXCircuit>(
    forward: Seq<Seq<(T, usize)>>,
    backward: Seq<Seq<(T, usize)>>,
    moves: Seq<T>,
    circ_forward: T,
    circ_mid: T,
    circ_backward: T,
) -> Result<Seq<usize>, BacktrackError> {
    match (
        spec_backtrack_result(backward, moves, circ_backward),
        spec_backtrack_result(forward, moves, circ_mid),
        spec_backtrack_result(forward, moves, circ_forward),
    ) {
        (Ok(back), Ok(mid), Ok(forth)) => Ok(back.reverse() + mid + forth),
        _ => Err(BacktrackError::NotAtRoot),
    }
}

/// The first pair, from circuit `i` and middle circuit `j` on, of a circuit of
/// `frontier` and a circuit of `mids` whose product `back` has.
pub open spec fn spec_apply_moves<T: CXCircuit>(
    frontier: Seq<(T, usize)>,
    mids: Seq<(T, usize)>,
    back: Seq<(T, usize)>,
    i: int,
    j: int,
) -> Option<(int, int)>
    decreases frontier.len() - i, mids.len() - j,
{
    if i < 0 || j < 0 || i >= frontier.len() {
        None
    } else if j >= mids.len() {
        spec_apply_moves(frontier, mids, back, i + 1, 0)
    } else if spec_has(back, frontier[i].0.spec_mult_transpose(&mids[j].0.spec_transpose())) {
        Some((i, j))
    } else {
        spec_apply_moves(frontier, mids, back, i, j + 1)
    }
}

/// The result of the search beyond the stored layers, from the layer `extra` of
/// the forward search on: a circuit of the last forward layer, composed with a
/// circuit of layer `extra`, that the last backward layer has.
pub open spec fn spec_extrapolate<T: CXCircuit>(
    forward: Seq<Seq<(T, usize)>>,
    backward: Seq<Seq<(T, usize)>>,
    moves: Seq<T>,
    extra: int,
) -> Result<Option<Seq<usize>>, BacktrackError>
    decreases forward.len() - extra,
{
    if extra < 1 || extra >= forward.len() {
        Ok(None)
    } else {
        match spec_apply_moves(forward.last(), forward[extra], backward.last(), 0, 0) {
            Some((i, j)) => {
                let first = forward.last()[i].0;
                let mid = forward[extra][j].0;
                spec_some_moves(
                    spec_backtrack_mitm_extra(
                        forward,
                        backward,
                        moves,
                        first,
                        mid,
                        first.spec_mult_transpose(&mid.spec_transpose()),
                    ),
                )
            },
            None => spec_extrapolate(forward, backward, moves, extra + 1),
        }
    }
}

/// The result of `mitm_bfs`.
pub open spec fn spec_mitm_bfs<T: CXCircuit>(target: T, moves: Seq<T>, max_steps: nat, extrapolate: bool) -> Result<
    Option<Seq<usize>>,
    BacktrackError,
> {
    let met = spec_meet(spec_start(T::spec_new()), spec_start(target), moves, max_steps);
    match met.0 {
        Some(circ) => spec_some_moves(spec_backtrack_mitm(met.1, met.2, moves, circ)),
        None => if extrapolate && max_steps >= 1 {
            spec_extrapolate(met.1, met.2, moves, 1)
        } else {
            Ok(None)
        },
    }
}

/// Putting a move below the bound keeps the moves below the bound.
pub proof fn lemma_put_below<T>(layer: Seq<(T, usize)>, c: T, m: usize, bound: int)
    requires
        spec_moves_below(layer, bound),
        m < bound,
    ensures
        spec_moves_below(spec_put(layer, c, m), bound),
{
    let after = spec_put(layer, c, m);
    assert forall|i: int| 0 <= i < after.len() implies (#[trigger] after[i]).1 < bound by {
        if spec_has(layer, c) {
            if i != crate::circ_moves::spec_position(layer, c) {
                assert(after[i] == layer[i]);
            }
        } else {
            if i < layer.len() {
                assert(after[i] == layer[i]);
            }
        }
    }
}

/// A breadth-first search: the moves, and the circuits reached so far.
pub struct BFS<'m, T> {
    /// Allowed moves (i.e. CX interactions).
    moves: &'m Vec<T>,
    /// The layers: at position `d` the circuits first reached with `d` moves,
    /// each with the move that led to it. Layer 0 holds the root alone.
    cx_count_circs: Vec<CircMoves<T>>,
}

impl<'m, T: CXCircuit> View for BFS<'m, T> {
    type V = Seq<Seq<(T, usize)>>;

    closed spec fn view(&self) -> Seq<Seq<(T, usize)>> {
        Seq::new(self.cx_count_circs@.len(), |d: int| self.cx_count_circs@[d]@)
    }
}

impl<'m, T: CXCircuit> BFS<'m, T> {
    /// The moves of the search.
    pub closed spec fn spec_moves(&self) -> Seq<T> {
        self.moves@
    }

    /// There is a layer 0, every layer is well formed, and from layer 1 on every
    /// move is one of the moves of the search.
    pub closed spec fn wf(&self) -> bool {
        &&& self.cx_count_circs@.len() >= 1
        &&& forall|d: int| 0 <= d < self.cx_count_circs@.len() ==> (#[trigger] self.cx_count_circs@[d]).wf()
        &&& forall|d: int|
            1 <= d < self.cx_count_circs@.len() ==> spec_moves_below(
                (#[trigger] self.cx_count_circs@[d])@,
                self.moves@.len() as int,
            )
    }

    /// A search that starts at `start_circ`.
    pub fn new(start_circ: T, moves: &'m Vec<T>) -> (bfs: Self)
        ensures
            bfs.wf(),
            bfs@ == spec_start(start_circ),
            bfs.spec_moves() == moves@,
            spec_sound_layers(bfs@, moves@),
    {
        let mut root = CircMoves::new();
        root.insert(start_circ, usize::MAX);
        let mut cx_count_circs: Vec<CircMoves<T>> = Vec::new();
        cx_count_circs.push(root);
        let bfs = BFS { moves, cx_count_circs };
        proof {
            assert(bfs@[0] =~= seq![(start_circ, usize::MAX)]);
            assert(bfs@ =~= spec_start(start_circ));
        }
        bfs
    }

    /// The number of steps made.
    pub fn depth(&self) -> (d: usize)
        requires
            self.wf(),
        ensures
            d == self@.len() - 1,
    {
        self.cx_count_circs.len() - 1
    }

    /// The circuits first reached with `d` moves.
    pub fn layer(&self, d: usize) -> (layer: &CircMoves<T>)
        requires
            self.wf(),
            d < self@.len(),
        ensures
            layer.wf(),
            layer@ == self@[d as int],
    {
        &self.cx_count_circs[d]
    }

    /// The circuits that the last step reached.
    pub fn frontier(&self) -> (layer: &CircMoves<T>)
        requires
            self.wf(),
        ensures
            layer.wf(),
            layer@ == self@.last(),
    {
        &self.cx_count_circs[self.cx_count_circs.len() - 1]
    }

    /// Applies the moves to every circuit reached in the previous step, and
    /// keeps as the next layer the circuits that the last two layers do not have.
    /// Where a move made twice changes nothing, the layers stay sound: every
    /// circuit of the new layer leads by its move to a circuit of the layer
    /// before, and no layer had it.
    pub fn step(&mut self)
        requires
            old(self).wf(),
        ensures
            final(self).wf(),
            final(self).spec_moves() == old(self).spec_moves(),
            final(self)@ == spec_step(old(self)@, old(self).spec_moves()),
            spec_self_undoing(old(self).spec_moves()) && spec_sound_layers(old(self)@, old(self).spec_moves())
                ==> spec_sound_layers(final(self)@, final(self).spec_moves()),
    {
        let n_moves = self.moves.len();
        proof {
            if spec_self_undoing(self.spec_moves()) && spec_sound_layers(self@, self.spec_moves()) {
                lemma_step_sound(self@, self.spec_moves());
            }
        }
        let depth = self.cx_count_circs.len();
        let new_moves = collect_moves(
            &self.cx_count_circs[depth - 1],
            self.moves,
            &self.cx_count_circs[depth - 1],
            if depth > 1 {
                Some(&self.cx_count_circs[depth - 2])
            } else {
                None
            },
        );
        self.cx_count_circs.push(new_moves);
        proof {
            assert(self@ =~= spec_step(old(self)@, old(self).spec_moves()));
            assert forall|d: int| 0 <= d < self.cx_count_circs@.len() implies (#[trigger] self.cx_count_circs@[d]).wf() by {
                if d < depth {
                    assert(self.cx_count_circs@[d] == old(self).cx_count_circs@[d]);
                }
            }
            assert forall|d: int| 1 <= d < self.cx_count_circs@.len() implies spec_moves_below(
                (#[trigger] self.cx_count_circs@[d])@,
                self.moves@.len() as int,
            ) by {
                if d < depth {
                    assert(self.cx_count_circs@[d] == old(self).cx_count_circs@[d]);
                }
            }
        }
    }

    /// The moves on the way back from `circ` to the root, last move first: made
    /// in their order from `circ` on, they lead to the root. It is an error if
    /// the way back does not end at the root. In a search whose layers are
    /// sound it ends there from every circuit of a layer, with as many moves
    /// as the number of the layer.
    pub fn backtrack(&self, circ: &T) -> (r: Result<Vec<usize>, BacktrackError>)
        requires
            self.wf(),
        ensures
            spec_view_moves(r) == spec_backtrack_result(self@, self.spec_moves(), *circ),
            r matches Ok(ids) ==> spec_ids_below(ids@, self.spec_moves().len() as int),
            r matches Ok(ids) ==> spec_has(self@[0], spec_walk(*circ, self.spec_moves(), ids@)),
            forall|d: int|
                spec_sound_layers(self@, self.spec_moves()) && 0 <= d < self@.len() && spec_has(
                    #[trigger] self@[d],
                    *circ,
                ) ==> (r matches Ok(ids) && ids@.len() == d),
    {
        proof {
            let back = spec_backtrack(Seq::empty(), self@, self.spec_moves(), *circ, self@.len() - 1);
            lemma_backtrack_walk(Seq::empty(), self@, self.spec_moves(), *circ, self@.len() - 1);
            assert(back.0.subrange(0, back.0.len() as int) =~= back.0);
            assert forall|d: int|
                spec_sound_layers(self@, self.spec_moves()) && 0 <= d < self@.len() && spec_has(
                    #[trigger] self@[d],
                    *circ,
                ) implies spec_backtrack_result(self@, self.spec_moves(), *circ) is Ok && back.0.len() == d by {
                lemma_result_ok(self@, self.spec_moves(), *circ, d);
                lemma_backtrack_exact(Seq::empty(), self@, self.spec_moves(), *circ, self@.len() - 1, d);
            }
        }
        let mut moves: Vec<usize> = Vec::new();
        let mut curr = *circ;
        let mut curr_depth = self.cx_count_circs.len() - 1;
        let ghost total = spec_backtrack(Seq::empty(), self@, self.moves@, *circ, self@.len() - 1);
        while curr_depth > 0
            invariant
                self.wf(),
                curr_depth < self.cx_count_circs@.len(),
                spec_ids_below(moves@, self.moves@.len() as int),
                spec_backtrack(moves@, self@, self.moves@, curr, curr_depth as int) == total,
            decreases curr_depth,
        {
            match self.cx_count_circs[curr_depth].get(&curr) {
                Some(move_id) => {
                    proof {
                        let layer = self.cx_count_circs@[curr_depth as int]@;
                        assert(spec_moves_below(layer, self.moves@.len() as int));
                        assert(layer[crate::circ_moves::spec_position(layer, curr)].1 == move_id);
                    }
                    moves.push(move_id);
                    curr = curr.mult_transpose(&self.moves[move_id]);
                },
                None => {},
            }
            curr_depth = curr_depth - 1;
        }
        if self.cx_count_circs[0].contains_key(&curr) {
            Ok(moves)
        } else {
            Err(BacktrackError::NotAtRoot)
        }
    }
}

/// The layer that follows `circs`: each of its circuits composed with each move,
/// without the results that `seen1` or `seen2` has. A result gets the last move
/// that made it.
pub fn collect_moves<T: CXCircuit>(
    circs: &CircMoves<T>,
    moves: &Vec<T>,
    seen1: &CircMoves<T>,
    seen2: Option<&CircMoves<T>>,
) -> (circuits: CircMoves<T>)
    requires
        circs.wf(),
        seen1.wf(),
        seen2 matches Some(seen) ==> seen.wf(),
    ensures
        circuits.wf(),
        spec_moves_below(circuits@, moves@.len() as int),
        circuits@ == spec_collect(
            Seq::empty(),
            circs@,
            moves@,
            seen1@,
            match seen2 {
                Some(seen) => seen@,
                None => Seq::empty(),
            },
            0,
            0,
        ),
{
    let ghost before: Seq<(T, usize)> = match seen2 {
        Some(seen) => seen@,
        None => Seq::empty(),
    };
    let mut circuits: CircMoves<T> = CircMoves::new();
    let ghost total = spec_collect(Seq::empty(), circs@, moves@, seen1@, before, 0, 0);
    assert(circuits@ =~= Seq::empty());
    let mut i: usize = 0;
    while i < circs.len()
        invariant
            i <= circs@.len(),
            circs.wf(),
            seen1.wf(),
            seen2 matches Some(seen) ==> seen.wf(),
            before == (match seen2 {
                Some(seen) => seen@,
                None => Seq::empty(),
            }),
            circuits.wf(),
            spec_moves_below(circuits@, moves@.len() as int),
            spec_collect(circuits@, circs@, moves@, seen1@, before, i as int, 0) == total,
        decreases circs@.len() - i,
    {
        let circ = circs.entry(i).0;
        let mut j: usize = 0;
        while j < moves.len()
            invariant
                i < circs@.len(),
                j <= moves@.len(),
                circ == circs@[i as int].0,
                circs.wf(),
                seen1.wf(),
                seen2 matches Some(seen) ==> seen.wf(),
                before == (match seen2 {
                    Some(seen) => seen@,
                    None => Seq::empty(),
                }),
                circuits.wf(),
                spec_moves_below(circuits@, moves@.len() as int),
                spec_collect(circuits@, circs@, moves@, seen1@, before, i as int, j as int) == total,
            decreases moves@.len() - j,
        {
            let made = circ.mult_transpose(&moves[j]);
            let known = seen1.contains_key(&made) || match seen2 {
                Some(seen) => seen.contains_key(&made),
                None => false,
            };
            if !known {
                proof {
                    lemma_put_below(circuits@, made, j, moves@.len() as int);
                }
                circuits.insert(made, j);
            }
            j = j + 1;
        }
        i = i + 1;
    }
    circuits
}

/// The first circuit of `frontier1` that `frontier2` has too.
pub fn intersect<T: CXCircuit>(frontier1: &CircMoves<T>, frontier2: &CircMoves<T>) -> (common: Option<T>)
    requires
        frontier1.wf(),
        frontier2.wf(),
    ensures
        common == spec_intersect(frontier1@, frontier2@, 0),
{
    let mut i: usize = 0;
    while i < frontier1.len()
        invariant
            i <= frontier1@.len(),
            frontier2.wf(),
            spec_intersect(frontier1@, frontier2@, i as int) == spec_intersect(frontier1@, frontier2@, 0),
        decreases frontier1@.len() - i,
    {
        let circ = frontier1.entry(i).0;
        if frontier2.contains_key(&circ) {
            return Some(circ);
        }
        i = i + 1;
    }
    None
}

/// The moves in `back`, in reverse, followed by those in `forth`.
fn join_moves(back: &Vec<usize>, forth: &Vec<usize>) -> (joined: Vec<usize>)
    ensures
        joined@ == back@.reverse() + forth@,
        forall|n: int| spec_ids_below(back@, n) && spec_ids_below(forth@, n) ==> spec_ids_below(joined@, n),
{
    let mut joined: Vec<usize> = Vec::new();
    let mut k: usize = back.len();
    while k > 0
        invariant
            k <= back@.len(),
            joined@.len() == back@.len() - k,
            forall|j: int| 0 <= j < joined@.len() ==> joined@[j] == back@[back@.len() - 1 - j],
        decreases k,
    {
        k = k - 1;
        joined.push(back[k]);
    }
    assert(joined@ =~= back@.reverse());
    let mut k: usize = 0;
    while k < forth.len()
        invariant
            k <= forth@.len(),
            joined@ == back@.reverse() + forth@.take(k as int),
        decreases forth@.len() - k,
    {
        joined.push(forth[k]);
        assert(joined@ =~= back@.reverse() + forth@.take(k as int + 1));
        k = k + 1;
    }
    assert(forth@.take(forth@.len() as int) =~= forth@);
    assert forall|n: int| spec_ids_below(back@, n) && spec_ids_below(forth@, n) implies spec_ids_below(
        joined@,
        n,
    ) by {
        assert forall|k: int| 0 <= k < joined@.len() implies (#[trigger] joined@[k]) < n by {
            if k < back@.len() {
                assert(joined@[k] == back@[back@.len() - 1 - k]);
            } else {
                assert(joined@[k] == forth@[k - back@.len()]);
            }
        }
    }
    joined
}

/// The moves of a circuit through `circ`, at which the two searches met.
pub fn backtrack_mitm<T: CXCircuit>(forward: &BFS<T>, backward: &BFS<T>, circ: T) -> (r: Result<
    Vec<usize>,
    BacktrackError,
>)
    requires
        forward.wf(),
        backward.wf(),
        forward.spec_moves() == backward.spec_moves(),
    ensures
        spec_view_moves(r) == spec_backtrack_mitm(forward@, backward@, forward.spec_moves(), circ),
        r matches Ok(ids) ==> spec_ids_below(ids@, forward.spec_moves().len() as int),
{
    let back = backward.backtrack(&circ);
    let forth = forward.backtrack(&circ);
    match (back, forth) {
        (Ok(back), Ok(forth)) => Ok(join_moves(&back, &forth)),
        _ => Err(BacktrackError::NotAtRoot),
    }
}

/// The moves of a circuit in three parts: back from the target to
/// `circ_backward`, the circuit `circ_mid`, and the way to `circ_forward`.
pub fn backtrack_mitm_extra<T: CXCircuit>(
    forward: &BFS<T>,
    backward: &BFS<T>,
    circ_forward: T,
    circ_mid: T,
    circ_backward: T,
) -> (r: Result<Vec<usize>, BacktrackError>)
    requires
        forward.wf(),
        backward.wf(),
        forward.spec_moves() == backward.spec_moves(),
    ensures
        spec_view_moves(r) == spec_backtrack_mitm_extra(
            forward@,
            backward@,
            forward.spec_moves(),
            circ_forward,
            circ_mid,
            circ_backward,
        ),
        r matches Ok(ids) ==> spec_ids_below(ids@, forward.spec_moves().len() as int),
{
    let back = backward.backtrack(&circ_backward);
    let mid = forward.backtrack(&circ_mid);
    let forth = forward.backtrack(&circ_forward);
    match (back, mid, forth) {
        (Ok(back), Ok(mid), Ok(forth)) => {
            let mut joined = join_moves(&back, &mid);
            let mut k: usize = 0;
            while k < forth.len()
                invariant
                    k <= forth@.len(),
                    spec_ids_below(forth@, forward.spec_moves().len() as int),
                    spec_ids_below(joined@, forward.spec_moves().len() as int),
                    joined@ == back@.reverse() + mid@ + forth@.take(k as int),
                decreases forth@.len() - k,
            {
                let ghost until = joined@;
                joined.push(forth[k]);
                assert(joined@ =~= back@.reverse() + mid@ + forth@.take(k as int + 1));
                assert forall|j: int| 0 <= j < joined@.len() implies (#[trigger] joined@[j]) < forward.spec_moves().len() by {
                    if j < until.len() {
                        assert(joined@[j] == until[j]);
                    }
                }
                k = k + 1;
            }
            assert(forth@.take(forth@.len() as int) =~= forth@);
            Ok(joined)
        },
        _ => Err(BacktrackError::NotAtRoot),
    }
}

/// The first pair of a circuit of `circs` and a circuit of `mids` whose product
/// `back` has, with the circuits in the order of `circs` and, for each, the
/// middle circuits in the order of `mids`.
#[verifier::loop_isolation(false)]
pub fn apply_moves<T: CXCircuit>(circs: &CircMoves<T>, mids: &CircMoves<T>, back: &CircMoves<T>) -> (hit: Option<
    (usize, usize),
>)
    requires
        back.wf(),
    ensures
        hit matches Some(pair) ==> pair.0 < circs@.len() && pair.1 < mids@.len() && spec_apply_moves(
            circs@,
            mids@,
            back@,
            0,
            0,
        ) == Some((pair.0 as int, pair.1 as int)),
        hit is None ==> spec_apply_moves(circs@, mids@, back@, 0, 0) is None,
{
    let mut transposed: Vec<T> = Vec::new();
    let mut j: usize = 0;
    while j < mids.len()
        invariant
            j <= mids@.len(),
            transposed@.len() == j,
            forall|k: int| 0 <= k < j ==> transposed@[k] == mids@[k].0.spec_transpose(),
        decreases mids@.len() - j,
    {
        transposed.push(mids.entry(j).0.transpose());
        j = j + 1;
    }
    let ghost total = spec_apply_moves(circs@, mids@, back@, 0, 0);
    let mut i: usize = 0;
    while i < circs.len()
        invariant
            i <= circs@.len(),
            back.wf(),
            transposed@.len() == mids@.len(),
            forall|k: int| 0 <= k < mids@.len() ==> transposed@[k] == mids@[k].0.spec_transpose(),
            spec_apply_moves(circs@, mids@, back@, i as int, 0) == total,
        decreases circs@.len() - i,
    {
        let circ = circs.entry(i).0;
        let mut j: usize = 0;
        while j < transposed.len()
            invariant
                i < circs@.len(),
                j <= mids@.len(),
                circ == circs@[i as int].0,
                back.wf(),
                transposed@.len() == mids@.len(),
                forall|k: int| 0 <= k < mids@.len() ==> transposed@[k] == mids@[k].0.spec_transpose(),
                spec_apply_moves(circs@, mids@, back@, i as int, j as int) == total,
            decreases mids@.len() - j,
        {
            let made = circ.mult_transpose(&transposed[j]);
            if back.contains_key(&made) {
                assert(spec_apply_moves(circs@, mids@, back@, i as int, j as int) == Some((i as int, j as int)));
                return Some((i, j));
            }
            j = j + 1;
        }
        i = i + 1;
    }
    None
}

/// Breadth-first search, starting from the identity circuit.
///
/// Gives the positions in `moves` of the moves of a circuit that is `target_circ`,
/// in the order in which they are applied, if at most `max_steps` moves reach it.
/// It is an error if the way back from the target does not end at the identity;
/// with moves that undo themselves it always ends there. With the moves of
/// single gates, the gates at the positions found give the target.
#[verifier::loop_isolation(false)]
pub fn bfs<T: CXCircuit>(target_circ: T, moves: &Vec<T>, max_steps: usize) -> (r: Result<
    Option<Vec<usize>>,
    BacktrackError,
>)
    ensures
        spec_view_found(r) == spec_bfs(target_circ, moves@, max_steps as nat),
        spec_found_below(r, moves@.len() as int),
        spec_self_undoing(moves@) ==> r is Ok,
        forall|pairs: Seq<(usize, usize)>| #[trigger]
            spec_gate_moves(moves@, pairs) ==> (r matches Ok(Some(ids)) ==> T::spec_from_cxs(
                spec_pairs_of(ids@, pairs),
            ) == target_circ),
{
    let n_moves = moves.len();
    proof {
        if spec_self_undoing(moves@) {
            lemma_bfs_ok(target_circ, moves@, max_steps as nat);
        }
        assert forall|pairs: Seq<(usize, usize)>| #[trigger]
            spec_gate_moves(moves@, pairs) && spec_bfs(target_circ, moves@, max_steps as nat) matches Ok(
                Some(ids),
            ) implies T::spec_from_cxs(spec_pairs_of(spec_bfs(target_circ, moves@, max_steps as nat)->Ok_0->0, pairs))
            == target_circ by {
            lemma_bfs_circuit(target_circ, moves@, pairs, max_steps as nat);
        }
    }
    let mut bfs = BFS::new(T::new(), moves);
    let ghost total = spec_bfs(target_circ, moves@, max_steps as nat);
    let mut steps = max_steps;
    while steps > 0
        invariant
            bfs.wf(),
            bfs.spec_moves() == moves@,
            spec_search(bfs@, moves@, target_circ, steps as nat) == total,
        decreases steps,
    {
        let ghost before = bfs@;
        bfs.step();
        assert(bfs@ == spec_step(before, moves@));
        if bfs.frontier().contains_key(&target_circ) {
            assert(spec_search(before, moves@, target_circ, steps as nat) == spec_some_moves(
                spec_backtrack_result(bfs@, moves@, target_circ),
            ));
            return match bfs.backtrack(&target_circ) {
                Ok(ids) => Ok(Some(ids)),
                Err(e) => Err(e),
            };
        }
        assert(spec_search(before, moves@, target_circ, steps as nat) == spec_search(
            bfs@,
            moves@,
            target_circ,
            (steps - 1) as nat,
        ));
        steps = steps - 1;
    }
    Ok(None)
}

/// Breadth-first search, starting from both ends to meet in the middle.
///
/// With `extrapolate`, circuits of up to three times `max_steps` gates are
/// found, at no further cost of memory: a circuit of the forward search is put
/// between the two last layers. With the moves of single gates, the gates at
/// the positions found give the target.
#[verifier::loop_isolation(false)]
pub fn mitm_bfs<T: CXCircuit>(target_circ: T, moves: &Vec<T>, max_steps: usize, extrapolate: bool) -> (r: Result<
    Option<Vec<usize>>,
    BacktrackError,
>)
    ensures
        spec_view_found(r) == spec_mitm_bfs(target_circ, moves@, max_steps as nat, extrapolate),
        spec_found_below(r, moves@.len() as int),
        spec_self_undoing(moves@) ==> r is Ok,
        forall|pairs: Seq<(usize, usize)>| #[trigger]
            spec_gate_moves(moves@, pairs) ==> (r matches Ok(Some(ids)) ==> T::spec_from_cxs(
                spec_pairs_of(ids@, pairs),
            ) == target_circ),
{
    let n_moves = moves.len();
    proof {
        if spec_self_undoing(moves@) {
            lemma_mitm_ok(target_circ, moves@, max_steps as nat, extrapolate);
        }
        assert forall|pairs: Seq<(usize, usize)>| #[trigger]
            spec_gate_moves(moves@, pairs) && spec_mitm_bfs(target_circ, moves@, max_steps as nat, extrapolate)
                matches Ok(Some(ids)) implies T::spec_from_cxs(
            spec_pairs_of(spec_mitm_bfs(target_circ, moves@, max_steps as nat, extrapolate)->Ok_0->0, pairs),
        ) == target_circ by {
            lemma_mitm_circuit(target_circ, moves@, pairs, max_steps as nat, extrapolate);
        }
    }
    if max_steps < 1 {
        return Ok(None);
    }
    // One search starts at the identity circuit, the other at the target circuit.
    let mut forward = BFS::new(T::new(), moves);
    let mut backward = BFS::new(target_circ, moves);
    let ghost total = spec_meet(forward@, backward@, moves@, max_steps as nat);
    let mut rounds = max_steps;
    while rounds > 0
        invariant
            forward.wf(),
            backward.wf(),
            forward.spec_moves() == moves@,
            backward.spec_moves() == moves@,
            spec_meet(forward@, backward@, moves@, rounds as nat) == total,
        decreases rounds,
    {
        let ghost forward0 = forward@;
        let ghost backward0 = backward@;
        forward.step();
        assert(forward@ == spec_step(forward0, moves@));
        match intersect(forward.frontier(), backward.frontier()) {
            Some(circ) => {
                assert(spec_meet(forward0, backward0, moves@, rounds as nat) == (Some(circ), forward@, backward@));
                return match backtrack_mitm(&forward, &backward, circ) {
                    Ok(ids) => Ok(Some(ids)),
                    Err(e) => Err(e),
                };
            },
            None => {},
        }
        backward.step();
        assert(backward@ == spec_step(backward0, moves@));
        match intersect(forward.frontier(), backward.frontier()) {
            Some(circ) => {
                assert(spec_meet(forward0, backward0, moves@, rounds as nat) == (Some(circ), forward@, backward@));
                return match backtrack_mitm(&forward, &backward, circ) {
                    Ok(ids) => Ok(Some(ids)),
                    Err(e) => Err(e),
                };
            },
            None => {},
        }
        assert(spec_meet(forward0, backward0, moves@, rounds as nat) == spec_meet(
            forward@,
            backward@,
            moves@,
            (rounds - 1) as nat,
        ));
        rounds = rounds - 1;
    }
    assert(total == (None::<T>, forward@, backward@));
    if extrapolate {
        let depth = forward.depth();
        let ghost all = spec_extrapolate(forward@, backward@, moves@, 1);
        let mut extra_depth: usize = 1;
        while extra_depth <= depth
            invariant
                forward.wf(),
                backward.wf(),
                forward.spec_moves() == moves@,
                backward.spec_moves() == moves@,
                depth == forward@.len() - 1,
                1 <= extra_depth <= depth + 1,
                spec_extrapolate(forward@, backward@, moves@, extra_depth as int) == all,
            decreases depth + 1 - extra_depth,
        {
            match apply_moves(forward.frontier(), forward.layer(extra_depth), backward.frontier()) {
                Some((i, j)) => {
                    let circ_forward = forward.frontier().entry(i).0;
                    let circ_mid = forward.layer(extra_depth).entry(j).0;
                    let circ_backward = circ_forward.mult_transpose(&circ_mid.transpose());
                    assert(spec_extrapolate(forward@, backward@, moves@, extra_depth as int) == spec_some_moves(
                        spec_backtrack_mitm_extra(
                            forward@,
                            backward@,
                            moves@,
                            circ_forward,
                            circ_mid,
                            circ_backward,
                        ),
                    ));
                    return match backtrack_mitm_extra(&forward, &backward, circ_forward, circ_mid, circ_backward) {
                        Ok(ids) => Ok(Some(ids)),
                        Err(e) => Err(e),
                    };
                },
                None => {},
            }
            assert(spec_extrapolate(forward@, backward@, moves@, extra_depth as int) == spec_extrapolate(
                forward@,
                backward@,
                moves@,
                extra_depth as int + 1,
            ));
            extra_depth = extra_depth + 1;
        }
    }
    Ok(None)
}

} // verus!
