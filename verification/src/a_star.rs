//! Best-first search for a CX circuit between two operator values.

pub mod expand_children;
pub mod graph;
pub mod merge_sound;

use vstd::prelude::*;
use priority_queue::PriorityQueue;
use std::collections::hash_map::RandomState;
use crate::a_star::graph::{lemma_dedup, spec_dedup, spec_replay, AStarGraph, GraphModel};
use crate::cx::CX;
use crate::qubit_set::QubitSet;
use crate::rows::{same_rows, spec_add_cx, spec_merge_rows};

verus! {

/// What the search needs of an operator value.
pub trait AStarValue: Sized {
    /// The number of qubits the value acts on; gates and merges name qubits below it.
    spec fn qubits() -> nat;

    /// An encoding that tells values apart.
    spec fn key(&self) -> Seq<u16>;

    /// The estimated number of gates from `self` to `other`.
    spec fn spec_dist(&self, other: &Self) -> nat;

    /// Whether `self` already agrees with `target` on qubit `qb`.
    spec fn spec_is_complete(&self, qb: u8, target: &Self) -> bool;

    /// The value after `CX(ctrl, tgt)`.
    spec fn spec_cx(&self, ctrl: u8, tgt: u8) -> Self;

    /// Whether `CX(ctrl, tgt)` can be applied to the value.
    spec fn spec_can_cx(&self, ctrl: u8, tgt: u8) -> bool;

    /// What holds of the values that a search works on, and of every value
    /// that gates lead to from one of them.
    spec fn spec_valid(&self) -> bool;

    /// To a valid value a gate on two different qubits can be applied, and
    /// gives a valid value.
    proof fn lemma_cx_valid(&self, ctrl: u8, tgt: u8)
        requires
            self.spec_valid(),
            ctrl < Self::qubits(),
            tgt < Self::qubits(),
            ctrl != tgt,
        ensures
            self.spec_can_cx(ctrl, tgt),
            self.spec_cx(ctrl, tgt).spec_valid(),
    ;

    /// The value that is `other` on the qubits in `used` and `self` elsewhere.
    spec fn spec_merge(&self, other: &Self, used: Set<u8>) -> Self;

    /// Different values have different keys.
    proof fn lemma_key_injective(&self, other: &Self)
        requires
            self.key() == other.key(),
        ensures
            *self == *other,
    ;

    /// The key holds the rows of the value, one for each qubit: a gate adds
    /// the row of its control to the row of its target, and a merge takes the
    /// rows of the qubits named from `other`.
    proof fn lemma_key_rows(&self, other: &Self, ctrl: u8, tgt: u8, used: Set<u8>)
        ensures
            self.key().len() == Self::qubits(),
            ctrl < Self::qubits() && tgt < Self::qubits() ==> self.spec_cx(ctrl, tgt).key() == spec_add_cx(
                self.key(),
                ctrl as int,
                tgt as int,
            ),
            self.spec_merge(other, used).key() == spec_merge_rows(self.key(), other.key(), used),
    ;

    /// The key of the value, by which it is found again.
    fn encode(&self) -> (k: Vec<u16>)
        ensures
            k@ == self.key(),
    ;

    /// An approximate cost from `self` to `other`, by which the search ranks
    /// its nodes.
    fn dist(&self, other: &Self) -> (d: usize)
        ensures
            d == self.spec_dist(other),
    ;

    /// Whether the target was reached on the given qubit.
    fn is_complete(&self, qb: u8, target: &Self) -> (done: bool)
        requires
            qb < Self::qubits(),
        ensures
            done == self.spec_is_complete(qb, target),
    ;

    /// Applies a CX gate to the value.
    fn cx(&self, ctrl: u8, tgt: u8) -> (r: Self)
        requires
            ctrl < Self::qubits(),
            tgt < Self::qubits(),
            self.spec_can_cx(ctrl, tgt),
        ensures
            r == self.spec_cx(ctrl, tgt),
    ;

    /// Merges two values: the qubits in `used_qubits` come from `other`.
    fn merge(&self, other: &Self, used_qubits: &QubitSet) -> (r: Self)
        requires
            forall|q: u8| used_qubits@.contains(q) ==> q < Self::qubits(),
        ensures
            r == self.spec_merge(other, used_qubits@),
    ;
}

/// The rank of a node in the queue: first a low estimated total cost, then, among
/// equal estimates, a high number of gates already made.
#[derive(Clone, Copy, Debug, PartialEq, Eq, Structural, Hash)]
pub struct PQCost {
    cost: usize,
    gates: usize,
}

/// Whether the key `a` ranks no higher than the key `b`: keys are ordered by
/// their first part, then by their second, then by their third.
pub open spec fn spec_key_le(a: (usize, usize, usize), b: (usize, usize, usize)) -> bool {
    a.0 < b.0 || (a.0 == b.0 && (a.1 < b.1 || (a.1 == b.1 && a.2 <= b.2)))
}

impl PQCost {
    /// The estimated total cost.
    pub closed spec fn spec_cost(&self) -> usize {
        self.cost
    }

    /// The number of gates already made.
    pub closed spec fn spec_gates(&self) -> usize {
        self.gates
    }

    /// The pair by which the queue orders: the higher pair leaves first.
    pub open spec fn spec_key(&self) -> (usize, usize) {
        ((usize::MAX - self.spec_cost()) as usize, self.spec_gates())
    }

    /// The rank for the estimated total cost `cost` after `gates` gates.
    pub fn new(cost: usize, gates: usize) -> (p: PQCost)
        ensures
            p.spec_cost() == cost,
            p.spec_gates() == gates,
    {
        PQCost { cost, gates }
    }

    /// The estimated total cost.
    pub fn cost(&self) -> (c: usize)
        ensures
            c == self.spec_cost(),
    {
        self.cost
    }

    /// The pair by which the queue orders.
    pub fn key(&self) -> (k: (usize, usize))
        ensures
            k == self.spec_key(),
    {
        (usize::MAX - self.cost, self.gates)
    }

    /// The rank that the pair `key` stands for.
    pub fn from_key(key: (usize, usize)) -> (p: PQCost)
        ensures
            p.spec_key() == key,
    {
        PQCost { cost: usize::MAX - key.0, gates: key.1 }
    }
}

/// `PriorityQueue` of priority_queue: items with keys, the item with the
/// highest key first.
#[verifier::external_type_specification]
#[verifier::external_body]
#[verifier::reject_recursive_types(I)]
#[verifier::reject_recursive_types(P)]
#[verifier::reject_recursive_types(H)]
pub struct ExPriorityQueue<I, P, H>(PriorityQueue<I, P, H>);

/// The items that the queue holds, each with its key.
pub uninterp spec fn queue_items(queue: PriorityQueue<usize, (usize, usize, usize), RandomState>) -> Map<
    usize,
    (usize, usize, usize),
>;

/// `PriorityQueue::new` of priority_queue: a queue without items.
#[verifier::external_body]
fn queue_new() -> (queue: PriorityQueue<usize, (usize, usize, usize), RandomState>)
    ensures
        queue_items(queue) =~= Map::empty(),
{
    PriorityQueue::new()
}

/// `PriorityQueue::push` of priority_queue: the item is in the queue with the
/// key given, whether it was there before or not; no other item changes.
#[verifier::external_body]
fn queue_push(
    queue: &mut PriorityQueue<usize, (usize, usize, usize), RandomState>,
    item: usize,
    key: (usize, usize, usize),
)
    ensures
        queue_items(*final(queue)) == queue_items(*old(queue)).insert(item, key),
{
    queue.push(item, key);
}

/// `PriorityQueue::pop` of priority_queue: nothing from an empty queue; else an
/// item whose key no other item's key exceeds leaves the queue, and is handed
/// out with its key.
#[verifier::external_body]
fn queue_pop(queue: &mut PriorityQueue<usize, (usize, usize, usize), RandomState>) -> (r: Option<
    (usize, (usize, usize, usize)),
>)
    ensures
        r is None ==> queue_items(*old(queue)).dom() =~= Set::empty() && queue_items(*final(queue))
            == queue_items(*old(queue)),
        r matches Some(top) ==> queue_items(*old(queue)).dom().contains(top.0) && queue_items(*old(queue))[top.0]
            == top.1 && queue_items(*final(queue)) == queue_items(*old(queue)).remove(top.0),
        r matches Some(top) ==> forall|i: usize|
            queue_items(*old(queue)).dom().contains(i) ==> spec_key_le(#[trigger] queue_items(*old(queue))[i], top.1),
{
    queue.pop()
}

/// Whether `sol` is the circuit of a node that holds `target`, in a sound
/// search graph that grew from the root value `start` with the gates of `moves`.
pub open spec fn spec_found<V: AStarValue>(start: V, target: V, moves: Seq<CX>, sol: Seq<CX>) -> bool {
    exists|g: GraphModel<V>, c: int|
        #![trigger g.spec_path(c)]
        {
            &&& g.wf()
            &&& g.spec_sound()
            &&& g.ops_allowed()
            &&& g.moves == spec_dedup(moves)
            &&& g.values[0] == start
            &&& 0 <= c < g.len()
            &&& g.values[c] == target
            &&& sol == g.spec_path(c)
        }
}

/// Whether `target` is another value than `start` and one gate of `moves` leads
/// from `start` to it.
pub open spec fn spec_one_gate_away<V: AStarValue>(start: V, target: V, moves: Seq<CX>) -> bool {
    start != target && exists|k: int|
        0 <= k < moves.len() && start.spec_cx((#[trigger] moves[k]).ctrl, moves[k].tgt) == target
}

/// The estimated total cost of a node: its gates so far plus the distance of its
/// value to the target, held at the largest integer.
pub open spec fn spec_estimate<V: AStarValue>(g: GraphModel<V>, node: int, target: V) -> usize {
    let sum = g.nodes[node].cost + g.values[node].spec_dist(&target);
    if sum <= usize::MAX {
        sum as usize
    } else {
        usize::MAX
    }
}

/// The key of a node in the queue: a lower estimate ranks higher; among equal
/// estimates more gates rank higher; among these the node made first.
pub open spec fn spec_queue_key(estimate: usize, gates: usize, node: usize) -> (usize, usize, usize) {
    ((usize::MAX - estimate) as usize, gates, (usize::MAX - node) as usize)
}

/// Whether no item of the queue has a higher key than item `i`.
pub open spec fn spec_is_top(queue: Map<usize, (usize, usize, usize)>, i: usize) -> bool {
    queue.dom().contains(i) && forall|j: usize|
        queue.dom().contains(j) ==> spec_key_le(#[trigger] queue[j], queue[i])
}

/// The item of the queue with the highest key.
pub open spec fn spec_top(queue: Map<usize, (usize, usize, usize)>) -> usize {
    choose|i: usize| spec_is_top(queue, i)
}

/// Whether the queue holds finitely many nodes below `n`, each with a key
/// that ends in the node's own mark.
pub open spec fn spec_queue_ok(queue: Map<usize, (usize, usize, usize)>, n: nat) -> bool {
    &&& queue.dom().finite()
    &&& forall|i: usize| #[trigger] queue.dom().contains(i) ==> i < n && queue[i].2 == usize::MAX - i
}

/// A queue in order stays in order when it gets a node with its own mark.
pub proof fn lemma_queue_insert(queue: Map<usize, (usize, usize, usize)>, n: nat, i: usize, key: (usize, usize, usize))
    requires
        spec_queue_ok(queue, n),
        i < n,
        key.2 == usize::MAX - i,
    ensures
        spec_queue_ok(queue.insert(i, key), n),
        queue.insert(i, key).dom().len() <= queue.dom().len() + 1,
{
    let after = queue.insert(i, key);
    assert(after.dom() =~= queue.dom().insert(i));
    assert(after.dom().finite());
    assert forall|j: usize| #[trigger] after.dom().contains(j) implies j < n && after[j].2 == usize::MAX - j by {
        if j != i {
            assert(queue.dom().contains(j));
            assert(after[j] == queue[j]);
        }
    }
}

/// A queue in order stays in order when a node leaves it, and when the graph grows.
pub proof fn lemma_queue_remove(queue: Map<usize, (usize, usize, usize)>, n: nat, i: usize, m: nat)
    requires
        spec_queue_ok(queue, n),
        n <= m,
    ensures
        spec_queue_ok(queue.remove(i), m),
        queue.dom().contains(i) ==> queue.remove(i).dom().len() + 1 == queue.dom().len(),
{
    let after = queue.remove(i);
    assert(after.dom() =~= queue.dom().remove(i));
    assert(after.dom().finite());
    assert forall|j: usize| #[trigger] after.dom().contains(j) implies j < m && after[j].2 == usize::MAX - j by {
        assert(queue.dom().contains(j));
        assert(after[j] == queue[j]);
    }
}

/// The better of the solution found so far and the way `path`: the way, if it
/// is the first or the shorter one.
pub open spec fn spec_better(best: Option<Seq<CX>>, path: Seq<CX>) -> Option<Seq<CX>> {
    match best {
        Some(sol) => if path.len() < sol.len() {
            Some(path)
        } else {
            best
        },
        None => Some(path),
    }
}

/// The queue and the solution after the nodes from `child` to `after` were
/// looked at: a node that holds the target offers its way as a solution, and
/// every node enters the queue.
pub open spec fn spec_push_new<V: AStarValue>(
    g: GraphModel<V>,
    queue: Map<usize, (usize, usize, usize)>,
    best: Option<Seq<CX>>,
    target: V,
    child: int,
    after: int,
) -> (Map<usize, (usize, usize, usize)>, Option<Seq<CX>>)
    decreases after - child,
{
    if child < 0 || child >= after {
        (queue, best)
    } else {
        let best2 = if g.values[child] == target {
            spec_better(best, g.spec_path(child))
        } else {
            best
        };
        let key = spec_queue_key(spec_estimate(g, child, target), g.nodes[child].cost as usize, child as usize);
        spec_push_new(g, queue.insert(child as usize, key), best2, target, child + 1, after)
    }
}

/// Looking at new nodes keeps the queue in order and adds at most these nodes.
pub proof fn lemma_push_new<V: AStarValue>(
    g: GraphModel<V>,
    queue: Map<usize, (usize, usize, usize)>,
    best: Option<Seq<CX>>,
    target: V,
    child: int,
    after: int,
)
    requires
        0 <= child <= after <= usize::MAX,
        spec_queue_ok(queue, after as nat),
    ensures
        spec_queue_ok(spec_push_new(g, queue, best, target, child, after).0, after as nat),
        spec_push_new(g, queue, best, target, child, after).0.dom().len() <= queue.dom().len() + (after - child),
    decreases after - child,
{
    if child < after {
        let best2 = if g.values[child] == target {
            spec_better(best, g.spec_path(child))
        } else {
            best
        };
        let key = spec_queue_key(spec_estimate(g, child, target), g.nodes[child].cost as usize, child as usize);
        let queue2 = queue.insert(child as usize, key);
        lemma_queue_insert(queue, after as nat, child as usize, key);
        lemma_push_new(g, queue2, best2, target, child + 1, after);
    }
}

/// The result of the search from the state given: the graph, the queue, the
/// solution found so far and the highest number of gates of a node met.
///
/// The node with the highest key leaves the queue. The search ends with the
/// solution found so far when the queue is empty, when the node has more gates
/// than any node before and more than `max_depth`, or when its estimate exceeds
/// the length of the solution. Else the node is expanded, its new children are
/// looked at, and the search goes on.
pub open spec fn spec_a_star_from<V: AStarValue>(
    g: GraphModel<V>,
    queue: Map<usize, (usize, usize, usize)>,
    best: Option<Seq<CX>>,
    max_cost: Option<usize>,
    target: V,
    max_depth: Option<usize>,
) -> Option<Seq<CX>>
    decreases usize::MAX - g.nodes.len() + queue.dom().len(),
{
    if !g.wf() || !spec_queue_ok(queue, g.len()) || queue.dom().len() == 0 || !spec_is_top(queue, spec_top(queue)) {
        best
    } else {
        let ind = spec_top(queue);
        let cost = g.nodes[ind as int].cost;
        let deeper = match max_cost {
            Some(seen) => cost > seen,
            None => true,
        };
        let too_deep = deeper && match max_depth {
            Some(cap) => cost > cap,
            None => false,
        };
        let optimal = match best {
            Some(sol) => usize::MAX - queue[ind].0 > sol.len(),
            None => false,
        };
        if too_deep || optimal {
            best
        } else {
            let grown = g.spec_expand(ind as int, target);
            let rest = queue.remove(ind);
            let pushed = spec_push_new(grown, rest, best, target, g.len() as int, grown.len() as int);
            proof {
                assert(queue[ind].2 == usize::MAX - ind);
                g.lemma_expand_wf(ind as int, target);
                lemma_queue_remove(queue, g.len(), ind, grown.len());
                lemma_push_new(grown, rest, best, target, g.len() as int, grown.len() as int);
            }
            spec_a_star_from(
                grown,
                pushed.0,
                pushed.1,
                if deeper {
                    Some(cost as usize)
                } else {
                    max_cost
                },
                target,
                max_depth,
            )
        }
    }
}

/// The result of `a_star`: the search from the graph of the root alone, with
/// the root in the queue.
pub open spec fn spec_a_star<V: AStarValue>(start: V, target: V, moves: Seq<CX>, max_depth: Option<usize>) -> Option<
    Seq<CX>,
> {
    let g = GraphModel::<V>::spec_new(start, spec_dedup(moves));
    spec_a_star_from(
        g,
        Map::empty().insert(0usize, spec_queue_key(spec_estimate(g, 0, target), 0, 0)),
        None,
        None,
        target,
        max_depth,
    )
}

/// What a solution stands for, where there is one.
pub open spec fn spec_solution(solution: Option<Vec<CX>>) -> Option<Seq<CX>> {
    match solution {
        Some(sol) => Some(sol@),
        None => None,
    }
}

/// The sum of an estimate and a cost, held at the largest integer where it would pass it.
fn saturating_sum(a: usize, b: usize) -> (s: usize)
    ensures
        s == if a + b <= usize::MAX { a + b } else { usize::MAX as int },
{
    if b > usize::MAX - a {
        usize::MAX
    } else {
        a + b
    }
}

/// The key of `node` in the queue, for its rank.
fn queue_key(rank: PQCost, node: usize) -> (key: (usize, usize, usize))
    ensures
        key == spec_queue_key(rank.spec_cost(), rank.spec_gates(), node),
{
    let pair = rank.key();
    (pair.0, pair.1, usize::MAX - node)
}

/// Searches a short circuit of allowed gates that takes `start` to `target`.
///
/// Nodes are expanded in the order of their estimated total cost, the gates
/// made so far plus `dist` to the target; among equal estimates the node with
/// more gates goes first, and among these the node made first. A child that
/// holds `target` gives a solution, which replaces a longer one found before.
/// The search ends when no node is left, when a node's estimate exceeds the
/// length of the solution found, or when a node with more than `max_depth`
/// gates is next.
///
/// What is found is the circuit of a node of the search graph that holds
/// `target`: replayed on `start` it gives `target`. It need not be a shortest
/// circuit, and the search may end without one where a circuit of few gates
/// exists: a node whose gate completes its qubits gets no child, and nodes are
/// merged only with nodes that have one.
pub fn a_star<V: AStarValue>(start: V, target: &V, allowed_moves: Vec<CX>, max_depth: Option<usize>) -> (r:
    Option<Vec<CX>>)
    requires
        start.spec_valid(),
        forall|k: int| 0 <= k < allowed_moves@.len() ==> GraphModel::<V>::gate_ok(#[trigger] allowed_moves@[k]),
    ensures
        spec_solution(r) == spec_a_star(start, *target, allowed_moves@, max_depth),
        r matches Some(sol) ==> spec_found(start, *target, allowed_moves@, sol@),
        r matches Some(sol) ==> spec_replay(start, sol@) == *target,
        r matches Some(sol) ==> forall|k: int| 0 <= k < sol@.len() ==> allowed_moves@.contains(#[trigger] sol@[k]),
        spec_one_gate_away(start, *target, allowed_moves@) ==> (r matches Some(sol) && sol@.len() <= 1),
        allowed_moves@.len() == 0 ==> r is None,
{
    let ghost moves = allowed_moves@;
    let mut graph = AStarGraph::new(start, allowed_moves);
    let target_key = target.encode();
    let mut queue = queue_new();
    let first = PQCost::new(graph.root().dist(target), 0);
    queue_push(&mut queue, graph.root_ind(), queue_key(first, graph.root_ind()));
    let mut min_solution: Option<Vec<CX>> = None;
    let mut max_cost: Option<usize> = None;
    let ghost total = spec_a_star(start, *target, moves, max_depth);
    proof {
        graph.lemma_wf();
        GraphModel::<V>::lemma_new_sound(start, spec_dedup(moves));
        assert(queue_items(queue).dom() =~= set![0usize]);
        assert(graph@.node_ok(0));
        assert(queue_items(queue) =~= Map::empty().insert(
            0usize,
            spec_queue_key(spec_estimate(graph@, 0, *target), 0, 0),
        ));
    }
    loop
        invariant_except_break
            spec_a_star_from(graph@, queue_items(queue), spec_solution(min_solution), max_cost, *target, max_depth)
                == total,
        invariant
            graph.wf(),
            graph@.wf(),
            graph@.spec_sound(),
            graph@.ops_allowed(),
            graph@.moves == spec_dedup(moves),
            graph@.values[0] == start,
            target_key@ == target.key(),
            spec_queue_ok(queue_items(queue), graph@.len()),
            min_solution matches Some(sol) ==> spec_found(start, *target, moves, sol@),
            moves.len() == 0 ==> min_solution is None && graph@.len() == 1,
        ensures
            moves.len() == 0 ==> min_solution is None,
            spec_solution(min_solution) == total,
        decreases usize::MAX - graph@.len() + queue_items(queue).dom().len(),
    {
        let ghost waiting = queue_items(queue);
        let ghost graph0 = graph@;
        let ghost best0 = spec_solution(min_solution);
        let ghost max_cost0 = max_cost;
        let (ind, key) = match queue_pop(&mut queue) {
            Some(top) => top,
            None => {
                assert(waiting.dom().len() == 0);
                assert(spec_a_star_from(graph0, waiting, best0, max_cost0, *target, max_depth) == best0);
                break ;
            },
        };
        let ghost left = queue_items(queue).dom().len();
        proof {
            lemma_queue_remove(waiting, graph@.len(), ind, graph@.len());
            assert(left + 1 == waiting.dom().len());
            assert(spec_is_top(waiting, ind));
            let top = spec_top(waiting);
            assert(spec_is_top(waiting, top));
            assert(spec_key_le(waiting[ind], waiting[top]));
            assert(spec_key_le(waiting[top], waiting[ind]));
            assert(waiting[ind].2 == usize::MAX - ind);
            assert(waiting[top].2 == usize::MAX - top);
            assert(top == ind);
        }
        let cost = graph.cost(ind);
        let deeper = match max_cost {
            Some(seen) => cost > seen,
            None => true,
        };
        if deeper {
            max_cost = Some(cost);
            let too_deep = match max_depth {
                Some(cap) => cost > cap,
                None => false,
            };
            if too_deep {
                assert(spec_a_star_from(graph0, waiting, best0, max_cost0, *target, max_depth) == best0);
                break ;
            }
        }
        let estimate = usize::MAX - key.0;
        let optimal = match &min_solution {
            Some(sol) => estimate > sol.len(),
            None => false,
        };
        if optimal {
            assert(spec_a_star_from(graph0, waiting, best0, max_cost0, *target, max_depth) == best0);
            break ;
        }
        let before = graph.len();
        proof {
            graph@.lemma_expand_wf(ind as int, *target);
            graph@.lemma_sound_valid(ind as int);
            if moves.len() == 0 {
                assert(ind == 0);
                graph@.lemma_expand_root_alone(*target);
            }
        }
        graph.expand_children(ind, target);
        let after = graph.len();
        let ghost rest = queue_items(queue);
        let ghost pushed = spec_push_new(graph@, rest, best0, *target, before as int, after as int);
        proof {
            lemma_queue_remove(waiting, graph0.len(), ind, graph@.len());
            lemma_push_new(graph@, rest, best0, *target, before as int, after as int);
            assert(spec_a_star_from(graph0, waiting, best0, max_cost0, *target, max_depth) == spec_a_star_from(
                graph@,
                pushed.0,
                pushed.1,
                max_cost,
                *target,
                max_depth,
            ));
        }
        let mut child: usize = before;
        while child < after
            invariant
                graph.wf(),
                graph@.wf(),
                graph@.spec_sound(),
                graph@.ops_allowed(),
                moves.len() == 0 ==> min_solution is None && after == 1 && before == 1,
                graph@.moves == spec_dedup(moves),
                graph@.values[0] == start,
                target_key@ == target.key(),
                before <= child <= after,
                after == graph@.len(),
                spec_queue_ok(queue_items(queue), after as nat),
                min_solution matches Some(sol) ==> spec_found(start, *target, moves, sol@),
                queue_items(queue).dom().len() <= left + (child - before),
                spec_push_new(
                    graph@,
                    queue_items(queue),
                    spec_solution(min_solution),
                    *target,
                    child as int,
                    after as int,
                ) == pushed,
            decreases after - child,
        {
            let value = graph.value(child).unwrap();
            let child_key = value.encode();
            if same_rows(child_key.as_slice(), target_key.as_slice()) {
                let new_solution = graph.path(child);
                proof {
                    value.lemma_key_injective(target);
                    assert(graph@.values[child as int] == *target);
                    assert(spec_found(start, *target, moves, new_solution@));
                }
                let shorter = match &min_solution {
                    Some(sol) => new_solution.len() < sol.len(),
                    None => true,
                };
                if shorter {
                    min_solution = Some(new_solution);
                }
            }
            let child_cost = graph.cost(child);
            let estimate = saturating_sum(child_cost, value.dist(target));
            let ghost queue0 = queue_items(queue);
            let key = queue_key(PQCost::new(estimate, child_cost), child);
            queue_push(&mut queue, child, key);
            proof {
                lemma_queue_insert(queue0, after as nat, child, key);
            }
            child = child + 1;
        }
    }
    proof {
        if min_solution is Some {
            let sol = min_solution->0;
            let (g, c) = choose|g: GraphModel<V>, c: int|
                #![trigger g.spec_path(c)]
                {
                    &&& g.wf()
                    &&& g.spec_sound()
                    &&& g.ops_allowed()
                    &&& g.moves == spec_dedup(moves)
                    &&& g.values[0] == start
                    &&& 0 <= c < g.len()
                    &&& g.values[c] == *target
                    &&& sol@ == g.spec_path(c)
                };
            g.lemma_path_allowed(c);
            lemma_dedup(moves);
            assert(spec_replay(g.values[0], g.spec_path(c)) == g.values[c]);
        }
        if spec_one_gate_away(start, *target, moves) {
            crate::a_star_sound::lemma_a_star_one_gate(start, *target, moves, max_depth);
        }
    }
    min_solution
}

} // verus!
