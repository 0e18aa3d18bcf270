//! The search graph: nodes that carry operator values, joined by CX edges and
//! by merges of two nodes.

use vstd::prelude::*;
use bimap::BiHashMap;
use fxhash::FxBuildHasher;
use crate::a_star::AStarValue;
use crate::cx::CX;
use crate::qubit_set::QubitSet;
use crate::rows::same_rows;

verus! {

/// An edge of the search graph.
#[derive(Clone, Copy, Debug, PartialEq, Eq, Structural, Hash)]
pub enum AEdge {
    /// One CX gate, applied to the value of `src`.
    Op { op: CX, src: usize, dst: usize },
    /// The merge of the values of `src1` and `src2`.
    Merge { src1: usize, src2: usize, dst: usize },
}

impl AEdge {
    /// The node the edge leads to.
    pub open spec fn spec_dst(&self) -> usize {
        match *self {
            AEdge::Op { dst, .. } => dst,
            AEdge::Merge { dst, .. } => dst,
        }
    }

    /// The nodes the edge comes from.
    pub open spec fn spec_srcs(&self) -> Seq<usize> {
        match *self {
            AEdge::Op { src, .. } => seq![src],
            AEdge::Merge { src1, src2, .. } => seq![src1, src2],
        }
    }

    /// The node the edge leads to.
    pub fn dst(&self) -> (d: usize)
        ensures
            d == self.spec_dst(),
    {
        match *self {
            AEdge::Op { dst, .. } => dst,
            AEdge::Merge { dst, .. } => dst,
        }
    }

    /// The nodes the edge comes from: one for a CX edge, two for a merge.
    pub fn srcs(&self) -> (s: Vec<usize>)
        ensures
            s@ == self.spec_srcs(),
    {
        let mut s: Vec<usize> = Vec::new();
        match *self {
            AEdge::Op { src, .. } => {
                s.push(src);
            },
            AEdge::Merge { src1, src2, .. } => {
                s.push(src1);
                s.push(src2);
            },
        }
        assert(s@ =~= self.spec_srcs());
        s
    }
}

/// The counts of the CX gates that have acted on each qubit so far.
#[derive(Clone, Debug, PartialEq, Eq, Hash)]
pub struct AStarStats {
    cx_count_per_qb: Vec<u16>,
}

/// A node of the search graph.
#[derive(Clone, Debug, PartialEq, Eq, Hash)]
pub struct ANode {
    /// The number of gates on the way from the root to this node.
    cost: usize,
    /// The edge by which the node was reached; the root has none.
    prev: Option<AEdge>,
    /// The edges that leave the node.
    next: Vec<AEdge>,
    /// How often each qubit was acted on.
    stats: AStarStats,
}

/// What a node holds, as plain mathematical values.
pub struct NodeModel {
    pub cost: nat,
    pub prev: Option<AEdge>,
    pub next: Seq<AEdge>,
    pub counts: Seq<u16>,
}

/// What a graph holds: its nodes and, at the same positions, their values.
pub struct GraphModel<V> {
    pub nodes: Seq<NodeModel>,
    pub values: Seq<V>,
    pub moves: Seq<CX>,
}

impl View for ANode {
    type V = NodeModel;

    closed spec fn view(&self) -> NodeModel {
        NodeModel {
            cost: self.cost as nat,
            prev: self.prev,
            next: self.next@,
            counts: self.stats.cx_count_per_qb@,
        }
    }
}

impl ANode {
    /// The root: no gate, no edge.
    pub fn new_root() -> (n: ANode)
        ensures
            n@ == spec_root_node(),
    {
        let n = ANode {
            prev: None,
            next: Vec::new(),
            stats: AStarStats { cx_count_per_qb: Vec::new() },
            cost: 0,
        };
        assert(n@.next =~= Seq::<AEdge>::empty());
        assert(n@.counts =~= Seq::<u16>::empty());
        n
    }

    /// A node reached by `prev`, without edges of its own yet.
    pub fn new_child(prev: AEdge, cost: usize, cx_count_per_qb: Vec<u16>) -> (n: ANode)
        ensures
            n@ == spec_child_node(prev, cost as nat, cx_count_per_qb@),
    {
        let n = ANode { prev: Some(prev), next: Vec::new(), stats: AStarStats { cx_count_per_qb }, cost };
        assert(n@.next =~= Seq::<AEdge>::empty());
        n
    }
}

/// The root node.
pub open spec fn spec_root_node() -> NodeModel {
    NodeModel { cost: 0, prev: None, next: Seq::empty(), counts: Seq::empty() }
}

/// A node that was just reached by `prev`.
pub open spec fn spec_child_node(prev: AEdge, cost: nat, counts: Seq<u16>) -> NodeModel {
    NodeModel { cost, prev: Some(prev), next: Seq::empty(), counts }
}

/// How often qubit `q` was acted on, by the counts `counts`.
pub open spec fn spec_count(counts: Seq<u16>, q: int) -> int {
    if 0 <= q < counts.len() {
        counts[q] as int
    } else {
        0
    }
}

/// The counts after one more gate on `ctrl` and on `tgt`.
pub open spec fn spec_bump(counts: Seq<u16>, ctrl: int, tgt: int) -> Seq<u16> {
    let top = if ctrl > tgt { ctrl } else { tgt };
    let len = if counts.len() <= top { top + 1 } else { counts.len() as int };
    Seq::new(
        len as nat,
        |q: int|
            (spec_count(counts, q) + if q == ctrl { 1int } else { 0int } + if q == tgt { 1int } else { 0int }) as u16,
    )
}

/// Whether one more gate on `ctrl` and on `tgt` can still be counted.
pub open spec fn spec_bump_fits(counts: Seq<u16>, ctrl: int, tgt: int) -> bool {
    spec_count(counts, ctrl) < u16::MAX && spec_count(counts, tgt) < u16::MAX
}

/// The sum of two counts, qubit by qubit.
pub open spec fn spec_sum(a: Seq<u16>, b: Seq<u16>) -> Seq<u16> {
    let len = if a.len() <= b.len() { b.len() } else { a.len() };
    Seq::new(len, |q: int| (spec_count(a, q) + spec_count(b, q)) as u16)
}

/// Whether the sum of two counts can still be counted on every qubit.
pub open spec fn spec_sum_fits(a: Seq<u16>, b: Seq<u16>) -> bool {
    forall|q: int| 0 <= q < b.len() ==> spec_count(a, q) + #[trigger] b[q] <= u16::MAX
}

impl<V: AStarValue> GraphModel<V> {
    /// The number of nodes.
    pub open spec fn len(self) -> nat {
        self.nodes.len()
    }

    /// Whether some node holds the value `v`.
    pub open spec fn has_value(self, v: V) -> bool {
        exists|i: int| 0 <= i < self.values.len() && #[trigger] self.values[i] == v
    }

    /// Whether `gate` is a gate on the qubits of `V`.
    pub open spec fn gate_ok(gate: CX) -> bool {
        gate.wf() && gate.ctrl < V::qubits() && gate.tgt < V::qubits()
    }

    /// What must hold of the edge `e` by which node `i` was reached.
    pub open spec fn prev_ok(self, i: int, e: AEdge) -> bool {
        match e {
            AEdge::Op { op, src, dst } => {
                &&& dst == i
                &&& src < i
                &&& Self::gate_ok(op)
                &&& self.nodes[i].cost == self.nodes[src as int].cost + 1
                &&& spec_bump_fits(self.nodes[src as int].counts, op.ctrl as int, op.tgt as int)
                &&& self.nodes[i].counts == spec_bump(
                    self.nodes[src as int].counts,
                    op.ctrl as int,
                    op.tgt as int,
                )
                &&& self.values[i] == self.values[src as int].spec_cx(op.ctrl, op.tgt)
            },
            AEdge::Merge { src1, src2, dst } => {
                &&& dst == i
                &&& src1 < i
                &&& src2 < i
                &&& self.nodes[i].cost == self.nodes[src1 as int].cost + self.nodes[src2 as int].cost
                &&& spec_sum_fits(self.nodes[src1 as int].counts, self.nodes[src2 as int].counts)
                &&& self.nodes[i].counts == spec_sum(
                    self.nodes[src1 as int].counts,
                    self.nodes[src2 as int].counts,
                )
            },
        }
    }

    /// What must hold of node `i`.
    pub open spec fn node_ok(self, i: int) -> bool {
        &&& self.nodes[i].cost <= usize::MAX
        &&& self.nodes[i].counts.len() <= 16
        &&& (i == 0 ==> self.nodes[i] == NodeModel { next: self.nodes[i].next, ..spec_root_node() })
        &&& (i > 0 ==> self.nodes[i].prev is Some && self.prev_ok(i, self.nodes[i].prev->0))
        &&& forall|k: int|
            0 <= k < self.nodes[i].next.len() ==> {
                let e = #[trigger] self.nodes[i].next[k];
                &&& i < e.spec_dst() < self.nodes.len()
                &&& self.nodes[e.spec_dst() as int].prev == Some(e)
                &&& e.spec_srcs().contains(i as usize)
            }
    }

    /// The invariant of a search graph: a root, every other node reached by one
    /// edge from earlier nodes, costs and counts that follow the edges, and no
    /// value held by two nodes.
    pub open spec fn wf(self) -> bool {
        &&& 0 < self.nodes.len() <= usize::MAX
        &&& self.values.len() == self.nodes.len()
        &&& forall|i: int| 0 <= i < self.nodes.len() ==> #[trigger] self.node_ok(i)
        &&& forall|i: int, j: int|
            0 <= i < j < self.values.len() ==> #[trigger] self.values[i] != #[trigger] self.values[j]
        &&& forall|k: int| 0 <= k < self.moves.len() ==> Self::gate_ok(#[trigger] self.moves[k])
        &&& forall|k: int, l: int|
            0 <= k < l < self.moves.len() ==> #[trigger] self.moves[k] != #[trigger] self.moves[l]
        &&& self.moves.len() <= 256
    }

    /// Whether every CX edge carries one of the allowed gates.
    pub open spec fn ops_allowed(self) -> bool {
        forall|i: int|
            0 <= i < self.nodes.len() ==> (#[trigger] self.nodes[i].prev matches Some(AEdge::Op { op, .. })
                ==> self.moves.contains(op))
    }

    /// The graph of the root alone.
    pub open spec fn spec_new(start: V, moves: Seq<CX>) -> GraphModel<V> {
        GraphModel { nodes: seq![spec_root_node()], values: seq![start], moves }
    }

    /// The graph of the root alone is well formed.
    pub proof fn lemma_new_wf(start: V, moves: Seq<CX>)
        requires
            forall|k: int| 0 <= k < moves.len() ==> Self::gate_ok(#[trigger] moves[k]),
        ensures
            Self::spec_new(start, spec_dedup(moves)).wf(),
            Self::spec_new(start, spec_dedup(moves)).ops_allowed(),
    {
        let g = Self::spec_new(start, spec_dedup(moves));
        lemma_dedup(moves);
        assert forall|k: int| 0 <= k < g.moves.len() implies Self::gate_ok(#[trigger] g.moves[k]) by {
            assert(spec_dedup(moves).contains(g.moves[k]));
            assert(moves.contains(g.moves[k]));
        }
        lemma_moves_bound(g.moves);
        assert(g.node_ok(0));
    }

    /// Whether `gate` can be added below `node`: the value it leads to is new,
    /// and cost and counts stay within the machine's integers.
    pub open spec fn can_add_cx(self, node: int, gate: CX) -> bool {
        &&& !self.has_value(self.values[node].spec_cx(gate.ctrl, gate.tgt))
        &&& self.nodes[node].cost < usize::MAX
        &&& self.nodes.len() < usize::MAX
        &&& spec_bump_fits(self.nodes[node].counts, gate.ctrl as int, gate.tgt as int)
    }

    /// The graph after `gate` was added below `node`; the same graph where it cannot be.
    pub open spec fn spec_add_cx(self, node: int, gate: CX) -> GraphModel<V> {
        if self.can_add_cx(node, gate) {
            let edge = AEdge::Op { op: gate, src: node as usize, dst: self.nodes.len() as usize };
            let child = spec_child_node(
                edge,
                self.nodes[node].cost + 1,
                spec_bump(self.nodes[node].counts, gate.ctrl as int, gate.tgt as int),
            );
            let parent = NodeModel { next: self.nodes[node].next.push(edge), ..self.nodes[node] };
            GraphModel {
                nodes: self.nodes.update(node, parent).push(child),
                values: self.values.push(self.values[node].spec_cx(gate.ctrl, gate.tgt)),
                moves: self.moves,
            }
        } else {
            self
        }
    }

    /// Whether `src1` and `src2` can be merged over `used`: the merged value is
    /// new, and cost and counts stay within the machine's integers.
    pub open spec fn can_add_merge(self, src1: int, src2: int, used: Set<u8>) -> bool {
        &&& !self.has_value(self.values[src1].spec_merge(&self.values[src2], used))
        &&& self.nodes[src1].cost + self.nodes[src2].cost <= usize::MAX
        &&& self.nodes.len() < usize::MAX
        &&& spec_sum_fits(self.nodes[src1].counts, self.nodes[src2].counts)
    }

    /// The graph after the merge of `src1` and `src2` over `used` was added; the
    /// same graph where it cannot be.
    pub open spec fn spec_add_merge(self, src1: int, src2: int, used: Set<u8>) -> GraphModel<V> {
        if self.can_add_merge(src1, src2, used) {
            let edge = AEdge::Merge {
                src1: src1 as usize,
                src2: src2 as usize,
                dst: self.nodes.len() as usize,
            };
            let child = spec_child_node(
                edge,
                self.nodes[src1].cost + self.nodes[src2].cost,
                spec_sum(self.nodes[src1].counts, self.nodes[src2].counts),
            );
            let first = NodeModel { next: self.nodes[src1].next.push(edge), ..self.nodes[src1] };
            let nodes1 = self.nodes.update(src1, first);
            let second = NodeModel { next: nodes1[src2].next.push(edge), ..nodes1[src2] };
            GraphModel {
                nodes: nodes1.update(src2, second).push(child),
                values: self.values.push(self.values[src1].spec_merge(&self.values[src2], used)),
                moves: self.moves,
            }
        } else {
            self
        }
    }

    /// The qubits that the history of `top` acted on more often than that of `ind`.
    pub open spec fn spec_disallowed(self, ind: int, top: int) -> Set<u8> {
        Set::new(
            |q: u8| spec_count(self.nodes[top].counts, q as int) > spec_count(self.nodes[ind].counts, q as int),
        )
    }

    /// Whether `i` is `ind` or lies on a way back from `ind` to the root, as a
    /// function of `i`.
    pub open spec fn spec_past_of(self, ind: int) -> spec_fn(int) -> bool {
        |i: int| self.spec_in_past(ind, i)
    }

    /// Whether `i` is in the past of `src1` or in that of `src2`, as a function of `i`.
    pub open spec fn spec_past_of_both(self, src1: int, src2: int) -> spec_fn(int) -> bool {
        |i: int| self.spec_in_past(src1, i) || self.spec_in_past(src2, i)
    }

    /// The gates of the CX edges that led to the nodes below `n` for which
    /// `pred` holds, in the order of the nodes.
    pub open spec fn spec_gates_where(self, pred: spec_fn(int) -> bool, n: int) -> Seq<CX>
        decreases n,
    {
        if n <= 0 {
            Seq::empty()
        } else {
            let front = self.spec_gates_where(pred, n - 1);
            match self.nodes[n - 1].prev {
                Some(AEdge::Op { op, .. }) => if pred(n - 1) {
                    front.push(op)
                } else {
                    front
                },
                _ => front,
            }
        }
    }

    /// The circuit of node `ind`: the gates of the CX edges in the past of
    /// `ind`, each once, in the order in which their nodes were made. An edge
    /// comes after the edges in the past of its sources.
    pub open spec fn spec_path(self, ind: int) -> Seq<CX> {
        self.spec_gates_where(self.spec_past_of(ind), ind + 1)
    }

    /// The circuit of a merge of `src1` and `src2`: the gates of the CX edges in
    /// the past of either, each once, in the order in which their nodes were made.
    pub open spec fn spec_union_path(self, src1: int, src2: int) -> Seq<CX> {
        self.spec_gates_where(self.spec_past_of_both(src1, src2), self.nodes.len() as int)
    }

    /// Whether the circuit of every node takes the root's value to the node's value.
    pub open spec fn replays(self) -> bool {
        forall|i: int|
            0 <= i < self.nodes.len() ==> spec_replay(self.values[0], #[trigger] self.spec_path(i))
                == self.values[i]
    }

    /// The nodes that the edges of node `ind` lead to.
    pub open spec fn spec_children(self, ind: int) -> Seq<usize> {
        Seq::new(self.nodes[ind].next.len(), |k: int| self.nodes[ind].next[k].spec_dst())
    }

    /// Whether `self` is `before` grown: the same allowed gates, and the same
    /// values at the positions that `before` has.
    pub open spec fn extends(self, before: GraphModel<V>) -> bool {
        &&& self.moves == before.moves
        &&& self.nodes.len() >= before.nodes.len()
        &&& self.values.len() >= before.values.len()
        &&& forall|i: int| 0 <= i < before.values.len() ==> #[trigger] self.values[i] == before.values[i]
        &&& forall|i: int|
            0 <= i < before.nodes.len() ==> {
                &&& (#[trigger] self.nodes[i]).cost == before.nodes[i].cost
                &&& self.nodes[i].prev == before.nodes[i].prev
                &&& self.nodes[i].counts == before.nodes[i].counts
            }
    }

    /// Growth upon growth is growth.
    pub proof fn lemma_extends_trans(self, middle: GraphModel<V>, before: GraphModel<V>)
        requires
            self.extends(middle),
            middle.extends(before),
        ensures
            self.extends(before),
    {
        assert forall|i: int| 0 <= i < before.values.len() implies #[trigger] self.values[i] == before.values[i] by {
            assert(middle.values[i] == before.values[i]);
        }
        assert forall|i: int| 0 <= i < before.nodes.len() implies {
            &&& (#[trigger] self.nodes[i]).cost == before.nodes[i].cost
            &&& self.nodes[i].prev == before.nodes[i].prev
            &&& self.nodes[i].counts == before.nodes[i].counts
        } by {
            assert(middle.nodes[i].cost == before.nodes[i].cost);
        }
    }

    /// The gates depend on the edges that led to the nodes and on `pred` below `n` only.
    pub proof fn lemma_gates_ext(
        self,
        other: GraphModel<V>,
        p: spec_fn(int) -> bool,
        q: spec_fn(int) -> bool,
        n: int,
    )
        requires
            forall|i: int| 0 <= i < n ==> #[trigger] p(i) == q(i),
            forall|i: int| 0 <= i < n ==> (#[trigger] self.nodes[i]).prev == other.nodes[i].prev,
        ensures
            self.spec_gates_where(p, n) == other.spec_gates_where(q, n),
        decreases n,
    {
        if n > 0 {
            self.lemma_gates_ext(other, p, q, n - 1);
            assert(p(n - 1) == q(n - 1));
            assert(self.nodes[n - 1].prev == other.nodes[n - 1].prev);
        }
    }

    /// Nodes for which `pred` does not hold give no gate.
    pub proof fn lemma_gates_above(self, p: spec_fn(int) -> bool, lo: int, hi: int)
        requires
            0 <= lo <= hi,
            forall|i: int| lo <= i < hi ==> !#[trigger] p(i),
        ensures
            self.spec_gates_where(p, hi) == self.spec_gates_where(p, lo),
        decreases hi - lo,
    {
        if lo < hi {
            self.lemma_gates_above(p, lo, hi - 1);
            assert(!p(hi - 1));
        }
    }

    /// The past of a node depends on the edges that led to it and to earlier nodes only.
    pub proof fn lemma_in_past_frame(self, other: GraphModel<V>, ind: int, a: int)
        requires
            0 <= ind,
            forall|i: int| 0 <= i <= ind ==> (#[trigger] self.nodes[i]).prev == other.nodes[i].prev,
        ensures
            self.spec_in_past(ind, a) == other.spec_in_past(ind, a),
        decreases ind,
    {
        assert(self.nodes[ind].prev == other.nodes[ind].prev);
        match self.nodes[ind].prev {
            Some(AEdge::Op { src, .. }) => {
                if src < ind {
                    self.lemma_in_past_frame(other, src as int, a);
                }
            },
            Some(AEdge::Merge { src1, src2, .. }) => {
                if src1 < ind {
                    self.lemma_in_past_frame(other, src1 as int, a);
                }
                if src2 < ind {
                    self.lemma_in_past_frame(other, src2 as int, a);
                }
            },
            None => {},
        }
    }

    /// The circuit of a node depends on the edges that led to it and to earlier nodes only.
    pub proof fn lemma_path_frame(self, other: GraphModel<V>, ind: int)
        requires
            0 <= ind,
            forall|i: int| 0 <= i <= ind ==> (#[trigger] self.nodes[i]).prev == other.nodes[i].prev,
        ensures
            self.spec_path(ind) == other.spec_path(ind),
    {
        let p = self.spec_past_of(ind);
        let q = other.spec_past_of(ind);
        assert forall|i: int| 0 <= i < ind + 1 implies #[trigger] p(i) == q(i) by {
            self.lemma_in_past_frame(other, ind, i);
        }
        self.lemma_gates_ext(other, p, q, ind + 1);
    }

    /// The circuit of the root is empty.
    pub proof fn lemma_path_root(self)
        requires
            self.nodes.len() > 0,
            self.nodes[0].prev is None,
        ensures
            self.spec_path(0) == Seq::<CX>::empty(),
    {
        let p = self.spec_past_of(0);
        assert(self.spec_gates_where(p, 0) =~= Seq::<CX>::empty());
        assert(self.spec_gates_where(p, 1) == self.spec_gates_where(p, 0));
    }

    /// The circuit of a node that a CX edge led to is the circuit of the edge's
    /// source, followed by what the edge applies.
    pub proof fn lemma_path_op(self, c: int)
        requires
            0 <= c < self.nodes.len(),
            self.nodes[c].prev matches Some(AEdge::Op { src, .. }) && src < c,
        ensures
            self.nodes[c].prev matches Some(AEdge::Op { op, src, .. }) && self.spec_path(c) == self.spec_path(
                src as int,
            ).push(op),
    {
        match self.nodes[c].prev {
            Some(AEdge::Op { op, src, .. }) => {
                let p = self.spec_past_of(c);
                let q = self.spec_past_of(src as int);
                assert(p(c));
                assert(self.spec_gates_where(p, c + 1) == self.spec_gates_where(p, c).push(op));
                assert forall|i: int| 0 <= i < c implies #[trigger] p(i) == q(i) by {}
                self.lemma_gates_ext(self, p, q, c);
                assert forall|i: int| src + 1 <= i < c implies !#[trigger] q(i) by {
                    if self.spec_in_past(src as int, i) {
                        self.lemma_in_past_below(src as int, i);
                    }
                }
                self.lemma_gates_above(q, src + 1, c);
            },
            _ => {},
        }
    }

    /// The circuit of a node that a merge led to is the circuit of the merge of
    /// its two sources.
    pub proof fn lemma_path_merge(self, m: int)
        requires
            0 <= m < self.nodes.len(),
            self.nodes[m].prev matches Some(AEdge::Merge { src1, src2, .. }) && src1 < m && src2 < m,
        ensures
            self.nodes[m].prev matches Some(AEdge::Merge { src1, src2, .. }) && self.spec_path(m)
                == self.spec_gates_where(self.spec_past_of_both(src1 as int, src2 as int), m),
    {
        match self.nodes[m].prev {
            Some(AEdge::Merge { src1, src2, .. }) => {
                let p = self.spec_past_of(m);
                let q = self.spec_past_of_both(src1 as int, src2 as int);
                assert(self.spec_gates_where(p, m + 1) == self.spec_gates_where(p, m));
                assert forall|i: int| 0 <= i < m implies #[trigger] p(i) == q(i) by {}
                self.lemma_gates_ext(self, p, q, m);
            },
            _ => {},
        }
    }

    /// The gates of CX edges are gates on the qubits of the values, and allowed
    /// gates where every CX edge carries an allowed gate.
    pub proof fn lemma_gates_ok(self, p: spec_fn(int) -> bool, n: int)
        requires
            self.wf(),
            n <= self.nodes.len(),
        ensures
            forall|k: int|
                0 <= k < self.spec_gates_where(p, n).len() ==> Self::gate_ok(#[trigger] self.spec_gates_where(p, n)[k]),
            self.ops_allowed() ==> forall|k: int|
                0 <= k < self.spec_gates_where(p, n).len() ==> self.moves.contains(
                    #[trigger] self.spec_gates_where(p, n)[k],
                ),
        decreases n,
    {
        if n > 0 {
            self.lemma_gates_ok(p, n - 1);
            assert(self.node_ok(n - 1));
            let front = self.spec_gates_where(p, n - 1);
            let all = self.spec_gates_where(p, n);
            match self.nodes[n - 1].prev {
                Some(AEdge::Op { op, .. }) => {
                    assert(self.prev_ok(n - 1, self.nodes[n - 1].prev->0));
                    assert forall|k: int| 0 <= k < all.len() implies Self::gate_ok(#[trigger] all[k]) by {
                        if k < front.len() {
                            assert(all[k] == front[k]);
                        }
                    }
                    if self.ops_allowed() {
                        assert forall|k: int| 0 <= k < all.len() implies self.moves.contains(#[trigger] all[k]) by {
                            if k < front.len() {
                                assert(all[k] == front[k]);
                            }
                        }
                    }
                },
                _ => {},
            }
        }
    }

    /// The gates of the circuit of a node are allowed gates where every CX edge
    /// carries an allowed gate.
    pub proof fn lemma_path_allowed(self, ind: int)
        requires
            self.wf(),
            self.ops_allowed(),
            0 <= ind < self.len(),
        ensures
            forall|k: int|
                0 <= k < self.spec_path(ind).len() ==> self.moves.contains(#[trigger] self.spec_path(ind)[k]),
    {
        self.lemma_gates_ok(self.spec_past_of(ind), ind + 1);
    }

    /// Adding a CX keeps the circuits of the nodes circuits for their values.
    pub proof fn lemma_add_cx_replays(self, node: int, gate: CX)
        requires
            self.wf(),
            self.replays(),
            0 <= node < self.len(),
            self.can_add_cx(node, gate),
        ensures
            self.spec_add_cx(node, gate).replays(),
    {
        let after = self.spec_add_cx(node, gate);
        let n = self.nodes.len() as int;
        assert forall|i: int| 0 <= i < n implies (#[trigger] after.nodes[i]).prev == self.nodes[i].prev by {}
        assert forall|i: int| 0 <= i < after.nodes.len() implies spec_replay(
            after.values[0],
            #[trigger] after.spec_path(i),
        ) == after.values[i] by {
            if i < n {
                after.lemma_path_frame(self, i);
                assert(spec_replay(self.values[0], self.spec_path(i)) == self.values[i]);
            } else {
                after.lemma_path_op(n);
                after.lemma_path_frame(self, node);
                assert(spec_replay(self.values[0], self.spec_path(node)) == self.values[node]);
                lemma_replay_push(self.values[0], self.spec_path(node), gate);
            }
        }
    }

    /// Adding a merge keeps the circuits of the nodes circuits for their values,
    /// where the merged value is the value that the gates in the past of the two
    /// nodes give.
    pub proof fn lemma_add_merge_replays(self, src1: int, src2: int, used: Set<u8>)
        requires
            self.wf(),
            self.replays(),
            0 <= src1 < self.len(),
            0 <= src2 < self.len(),
            self.can_add_merge(src1, src2, used),
            spec_replay(self.values[0], self.spec_union_path(src1, src2)) == self.values[src1].spec_merge(
                &self.values[src2],
                used,
            ),
        ensures
            self.spec_add_merge(src1, src2, used).replays(),
    {
        let after = self.spec_add_merge(src1, src2, used);
        let n = self.nodes.len() as int;
        assert forall|i: int| 0 <= i < n implies (#[trigger] after.nodes[i]).prev == self.nodes[i].prev by {}
        assert forall|i: int| 0 <= i < after.nodes.len() implies spec_replay(
            after.values[0],
            #[trigger] after.spec_path(i),
        ) == after.values[i] by {
            if i < n {
                after.lemma_path_frame(self, i);
                assert(spec_replay(self.values[0], self.spec_path(i)) == self.values[i]);
            } else {
                after.lemma_path_merge(n);
                let p = after.spec_past_of_both(src1, src2);
                let q = self.spec_past_of_both(src1, src2);
                assert forall|k: int| 0 <= k < n implies #[trigger] p(k) == q(k) by {
                    after.lemma_in_past_frame(self, src1, k);
                    after.lemma_in_past_frame(self, src2, k);
                }
                after.lemma_gates_ext(self, p, q, n);
            }
        }
    }

    /// Adding a CX keeps the invariant.
    pub proof fn lemma_add_cx_wf(self, node: int, gate: CX)
        requires
            self.wf(),
            0 <= node < self.len(),
            Self::gate_ok(gate),
        ensures
            self.spec_add_cx(node, gate).wf(),
            self.spec_add_cx(node, gate).extends(self),
            self.spec_add_cx(node, gate).len() <= self.len() + 1,
            self.ops_allowed() && self.moves.contains(gate) ==> self.spec_add_cx(node, gate).ops_allowed(),
    {
        let after = self.spec_add_cx(node, gate);
        if self.can_add_cx(node, gate) {
            if self.ops_allowed() && self.moves.contains(gate) {
                assert forall|i: int| 0 <= i < after.nodes.len() implies (#[trigger] after.nodes[i].prev matches Some(
                    AEdge::Op { op, .. },
                ) ==> after.moves.contains(op)) by {
                    if i < self.nodes.len() {
                        assert(after.nodes[i].prev == self.nodes[i].prev);
                    }
                }
            }
            let n = self.nodes.len() as int;
            let v = self.values[node].spec_cx(gate.ctrl, gate.tgt);
            assert forall|i: int| 0 <= i < after.nodes.len() implies #[trigger] after.node_ok(i) by {
                if i < n {
                    assert(self.node_ok(i));
                    assert(after.nodes[i].next.len() >= self.nodes[i].next.len());
                    assert forall|k: int| 0 <= k < after.nodes[i].next.len() implies {
                        let e = #[trigger] after.nodes[i].next[k];
                        &&& i < e.spec_dst() < after.nodes.len()
                        &&& after.nodes[e.spec_dst() as int].prev == Some(e)
                        &&& e.spec_srcs().contains(i as usize)
                    } by {
                        let e = after.nodes[i].next[k];
                        if k < self.nodes[i].next.len() {
                            assert(e == self.nodes[i].next[k]);
                        } else {
                            assert(i == node);
                            assert(e.spec_srcs()[0] == i as usize);
                        }
                    }
                    if i > 0 {
                        assert(self.prev_ok(i, self.nodes[i].prev->0));
                        assert(after.prev_ok(i, after.nodes[i].prev->0));
                    }
                } else {
                    assert(self.node_ok(node));
                    assert(after.prev_ok(i, after.nodes[i].prev->0));
                }
            }
            assert forall|i: int, j: int| 0 <= i < j < after.values.len() implies #[trigger] after.values[i]
                != #[trigger] after.values[j] by {
                if j == n {
                    assert(self.values[i] != v);
                }
            }
        }
    }

    /// Adding a merge keeps the invariant.
    pub proof fn lemma_add_merge_wf(self, src1: int, src2: int, used: Set<u8>)
        requires
            self.wf(),
            0 <= src1 < self.len(),
            0 <= src2 < self.len(),
        ensures
            self.spec_add_merge(src1, src2, used).wf(),
            self.spec_add_merge(src1, src2, used).extends(self),
            self.ops_allowed() ==> self.spec_add_merge(src1, src2, used).ops_allowed(),
    {
        let after = self.spec_add_merge(src1, src2, used);
        if self.can_add_merge(src1, src2, used) {
            if self.ops_allowed() {
                assert forall|i: int| 0 <= i < after.nodes.len() implies (#[trigger] after.nodes[i].prev matches Some(
                    AEdge::Op { op, .. },
                ) ==> after.moves.contains(op)) by {
                    if i < self.nodes.len() {
                        assert(after.nodes[i].prev == self.nodes[i].prev);
                    }
                }
            }
            let n = self.nodes.len() as int;
            let v = self.values[src1].spec_merge(&self.values[src2], used);
            assert forall|i: int| 0 <= i < after.nodes.len() implies #[trigger] after.node_ok(i) by {
                if i < n {
                    assert(self.node_ok(i));
                    assert forall|k: int| 0 <= k < after.nodes[i].next.len() implies {
                        let e = #[trigger] after.nodes[i].next[k];
                        &&& i < e.spec_dst() < after.nodes.len()
                        &&& after.nodes[e.spec_dst() as int].prev == Some(e)
                        &&& e.spec_srcs().contains(i as usize)
                    } by {
                        let e = after.nodes[i].next[k];
                        if k < self.nodes[i].next.len() {
                            assert(e == self.nodes[i].next[k]);
                        } else {
                            assert(i == src1 || i == src2);
                            assert(e.spec_srcs()[0] == src1 as usize);
                            assert(e.spec_srcs()[1] == src2 as usize);
                        }
                    }
                    if i > 0 {
                        assert(self.prev_ok(i, self.nodes[i].prev->0));
                        assert(after.prev_ok(i, after.nodes[i].prev->0));
                    }
                } else {
                    assert(self.node_ok(src1));
                    assert(self.node_ok(src2));
                    assert(after.prev_ok(i, after.nodes[i].prev->0));
                }
            }
            assert forall|i: int, j: int| 0 <= i < j < after.values.len() implies #[trigger] after.values[i]
                != #[trigger] after.values[j] by {
                if j == n {
                    assert(self.values[i] != v);
                }
            }
        }
    }
}

/// The value after the gates of `solution`, one after the other, from `source` on.
pub open spec fn spec_replay<V: AStarValue>(source: V, solution: Seq<CX>) -> V
    decreases solution.len(),
{
    if solution.len() == 0 {
        source
    } else {
        spec_replay(source, solution.drop_last()).spec_cx(solution.last().ctrl, solution.last().tgt)
    }
}

/// Replaying one more gate is applying it to what the gates before give.
pub proof fn lemma_replay_push<V: AStarValue>(source: V, solution: Seq<CX>, gate: CX)
    ensures
        spec_replay(source, solution.push(gate)) == spec_replay(source, solution).spec_cx(gate.ctrl, gate.tgt),
{
    assert(solution.push(gate).drop_last() =~= solution);
}

/// Gates on two different qubits each lead from a valid value to a valid value.
pub proof fn lemma_replay_valid<V: AStarValue>(source: V, gates: Seq<CX>)
    requires
        source.spec_valid(),
        forall|k: int| 0 <= k < gates.len() ==> GraphModel::<V>::gate_ok(#[trigger] gates[k]),
    ensures
        spec_replay(source, gates).spec_valid(),
    decreases gates.len(),
{
    if gates.len() > 0 {
        lemma_replay_valid(source, gates.drop_last());
        assert(GraphModel::<V>::gate_ok(gates.last()));
        spec_replay(source, gates.drop_last()).lemma_cx_valid(gates.last().ctrl, gates.last().tgt);
    }
}

/// The entries of `flags` that are set, as a function of the position.
pub open spec fn spec_marked(flags: Seq<bool>) -> spec_fn(int) -> bool {
    |i: int| 0 <= i < flags.len() && flags[i]
}

/// Replays `gates` from `source` and tells whether that gives `target`.
pub fn replay_gives<V: AStarValue>(source: &V, gates: &Vec<CX>, target: &V) -> (same: bool)
    requires
        source.spec_valid(),
        forall|k: int| 0 <= k < gates@.len() ==> GraphModel::<V>::gate_ok(#[trigger] gates@[k]),
    ensures
        same == (spec_replay(*source, gates@) == *target),
{
    let wanted = target.encode();
    if gates.len() == 0 {
        let reached = source.encode();
        let same = same_rows(reached.as_slice(), wanted.as_slice());
        proof {
            if same {
                source.lemma_key_injective(target);
            }
        }
        return same;
    }
    assert(GraphModel::<V>::gate_ok(gates@[0]));
    proof {
        source.lemma_cx_valid(gates@[0].ctrl, gates@[0].tgt);
    }
    let mut value = source.cx(gates[0].ctrl, gates[0].tgt);
    let mut k: usize = 1;
    proof {
        assert(gates@.take(1).drop_last() =~= Seq::<CX>::empty());
        assert(gates@.take(1).last() == gates@[0]);
        assert(spec_replay(*source, gates@.take(1).drop_last()) == *source);
    }
    while k < gates.len()
        invariant
            1 <= k <= gates@.len(),
            forall|k: int| 0 <= k < gates@.len() ==> GraphModel::<V>::gate_ok(#[trigger] gates@[k]),
            value == spec_replay(*source, gates@.take(k as int)),
            value.spec_valid(),
        decreases gates@.len() - k,
    {
        proof {
            let next = gates@.take(k as int + 1);
            assert(next.drop_last() =~= gates@.take(k as int));
            assert(next.last() == gates@[k as int]);
            assert(GraphModel::<V>::gate_ok(gates@[k as int]));
            value.lemma_cx_valid(gates@[k as int].ctrl, gates@[k as int].tgt);
        }
        let gate = gates[k];
        value = value.cx(gate.ctrl, gate.tgt);
        k = k + 1;
    }
    assert(gates@.take(gates@.len() as int) =~= gates@);
    let reached = value.encode();
    let same = same_rows(reached.as_slice(), wanted.as_slice());
    proof {
        if same {
            value.lemma_key_injective(target);
        }
    }
    same
}

/// There are at most 256 different gates on qubits below 16.
pub proof fn lemma_moves_bound(moves: Seq<CX>)
    requires
        forall|k: int| 0 <= k < moves.len() ==> (#[trigger] moves[k]).ctrl < 16 && moves[k].tgt < 16,
        forall|k: int, l: int| 0 <= k < l < moves.len() ==> #[trigger] moves[k] != #[trigger] moves[l],
    ensures
        moves.len() <= 256,
{
    let code = |g: CX| g.ctrl as int * 16 + g.tgt as int;
    let codes = moves.map_values(code);
    assert forall|k: int, l: int| 0 <= k < codes.len() && 0 <= l < codes.len() && k != l implies codes[k]
        != codes[l] by {
        let a = moves[k];
        let b = moves[l];
        if k < l {
            assert(moves[k] != moves[l]);
        } else {
            assert(moves[l] != moves[k]);
        }
        assert(a.ctrl != b.ctrl || a.tgt != b.tgt);
    }
    assert(codes.no_duplicates());
    codes.unique_seq_to_set();
    let range = vstd::set_lib::set_int_range(0, 256);
    vstd::set_lib::lemma_int_range(0, 256);
    assert forall|c: int| codes.to_set().contains(c) implies range.contains(c) by {
        let k = choose|k: int| 0 <= k < codes.len() && codes[k] == c;
        assert(moves[k].ctrl < 16 && moves[k].tgt < 16);
    }
    vstd::set_lib::lemma_len_subset(codes.to_set(), range);
}

/// The gates of `moves`, each kept where it first occurs.
pub open spec fn spec_dedup(moves: Seq<CX>) -> Seq<CX>
    decreases moves.len(),
{
    if moves.len() == 0 {
        Seq::empty()
    } else {
        let kept = spec_dedup(moves.drop_last());
        if kept.contains(moves.last()) {
            kept
        } else {
            kept.push(moves.last())
        }
    }
}

/// The pairs of a node's position and its value's key that the index holds.
pub uninterp spec fn index_pairs(
    index: BiHashMap<usize, Vec<u16>, FxBuildHasher, FxBuildHasher>,
) -> Map<usize, Seq<u16>>;

/// `BiHashMap` of bimap: a map that finds each pair by its left and by its right side.
#[verifier::external_type_specification]
#[verifier::external_body]
#[verifier::reject_recursive_types(L)]
#[verifier::reject_recursive_types(R)]
#[verifier::reject_recursive_types(LS)]
#[verifier::reject_recursive_types(RS)]
pub struct ExBiHashMap<L, R, LS, RS>(BiHashMap<L, R, LS, RS>);

/// `BuildHasherDefault` of std, by which the index makes its hashers.
#[verifier::external_type_specification]
#[verifier::external_body]
#[verifier::reject_recursive_types(H)]
pub struct ExBuildHasherDefault<H>(core::hash::BuildHasherDefault<H>);

/// `FxHasher` of fxhash, the hasher of the index.
#[verifier::external_type_specification]
#[verifier::external_body]
pub struct ExFxHasher(fxhash::FxHasher);

/// `BiHashMap::default` of bimap: a map without pairs.
#[verifier::external_body]
fn index_new() -> (index: BiHashMap<usize, Vec<u16>, FxBuildHasher, FxBuildHasher>)
    ensures
        index_pairs(index) =~= Map::empty(),
{
    BiHashMap::default()
}

/// `BiHashMap::contains_right` of bimap: whether some pair has `key` on its right.
#[verifier::external_body]
fn index_contains_right(
    index: &BiHashMap<usize, Vec<u16>, FxBuildHasher, FxBuildHasher>,
    key: &Vec<u16>,
) -> (found: bool)
    ensures
        found == index_pairs(*index).contains_value(key@),
{
    index.contains_right(key)
}

/// `BiHashMap::insert` of bimap, for a pair of which neither side is in the map
/// yet: the pair is added and no other pair changes.
#[verifier::external_body]
fn index_insert(
    index: &mut BiHashMap<usize, Vec<u16>, FxBuildHasher, FxBuildHasher>,
    node: usize,
    key: Vec<u16>,
)
    requires
        !index_pairs(*old(index)).dom().contains(node),
        !index_pairs(*old(index)).contains_value(key@),
    ensures
        index_pairs(*final(index)) == index_pairs(*old(index)).insert(node, key@),
{
    index.insert(node, key);
}

/// The counts after one more gate on `ctrl` and on `tgt`, if they can still be counted.
fn bump_counts(counts: &Vec<u16>, ctrl: u8, tgt: u8) -> (r: Option<Vec<u16>>)
    requires
        ctrl < 16,
        tgt < 16,
        ctrl != tgt,
    ensures
        spec_bump_fits(counts@, ctrl as int, tgt as int) ==> r is Some && r->0@ == spec_bump(
            counts@,
            ctrl as int,
            tgt as int,
        ),
        !spec_bump_fits(counts@, ctrl as int, tgt as int) ==> r is None,
{
    let top: usize = if ctrl > tgt { ctrl as usize } else { tgt as usize };
    let len: usize = if counts.len() <= top { top + 1 } else { counts.len() };
    let mut bumped: Vec<u16> = Vec::new();
    let mut q: usize = 0;
    while q < len
        invariant
            q <= len,
            len == (if counts@.len() <= top { top + 1 } else { counts@.len() as int }),
            top == (if ctrl > tgt { ctrl as int } else { tgt as int }),
            ctrl != tgt,
            bumped@.len() == q,
            forall|p: int| 0 <= p < q ==> bumped@[p] == spec_bump(counts@, ctrl as int, tgt as int)[p],
            forall|p: int|
                0 <= p < q && (p == ctrl || p == tgt) ==> spec_count(counts@, p) < u16::MAX,
        decreases len - q,
    {
        let old_count: u16 = if q < counts.len() { counts[q] } else { 0 };
        assert(old_count == spec_count(counts@, q as int));
        assert(spec_bump(counts@, ctrl as int, tgt as int)[q as int] == (spec_count(counts@, q as int) + if q
            == ctrl { 1int } else { 0int } + if q == tgt { 1int } else { 0int }) as u16);
        if q == ctrl as usize || q == tgt as usize {
            if old_count == u16::MAX {
                return None;
            }
            bumped.push(old_count + 1);
        } else {
            bumped.push(old_count);
        }
        q = q + 1;
    }
    assert(bumped@ =~= spec_bump(counts@, ctrl as int, tgt as int));
    Some(bumped)
}

/// The sum of two counts, if it can still be counted on every qubit.
fn sum_counts(a: &Vec<u16>, b: &Vec<u16>) -> (r: Option<Vec<u16>>)
    ensures
        spec_sum_fits(a@, b@) ==> r is Some && r->0@ == spec_sum(a@, b@),
        !spec_sum_fits(a@, b@) ==> r is None,
{
    let len: usize = if a.len() <= b.len() { b.len() } else { a.len() };
    let mut sum: Vec<u16> = Vec::new();
    let mut q: usize = 0;
    while q < len
        invariant
            q <= len,
            len == (if a@.len() <= b@.len() { b@.len() } else { a@.len() }),
            sum@.len() == q,
            forall|p: int| 0 <= p < q ==> sum@[p] == spec_sum(a@, b@)[p],
            forall|p: int| 0 <= p < q && p < b@.len() ==> spec_count(a@, p) + #[trigger] b@[p] <= u16::MAX,
        decreases len - q,
    {
        let x: u16 = if q < a.len() { a[q] } else { 0 };
        let y: u16 = if q < b.len() { b[q] } else { 0 };
        if y > u16::MAX - x {
            assert(spec_count(a@, q as int) + b@[q as int] > u16::MAX);
            return None;
        }
        sum.push(x + y);
        q = q + 1;
    }
    assert(sum@ =~= spec_sum(a@, b@));
    Some(sum)
}

/// The gates of `moves`, each kept where it first occurs.
fn dedup_moves(moves: &Vec<CX>) -> (kept: Vec<CX>)
    ensures
        kept@ == spec_dedup(moves@),
{
    let mut kept: Vec<CX> = Vec::new();
    let mut i: usize = 0;
    while i < moves.len()
        invariant
            i <= moves@.len(),
            kept@ == spec_dedup(moves@.take(i as int)),
        decreases moves@.len() - i,
    {
        let gate = moves[i];
        let mut found = false;
        let mut k: usize = 0;
        while k < kept.len()
            invariant
                k <= kept@.len(),
                found == exists|j: int| 0 <= j < k && kept@[j] == gate,
            decreases kept@.len() - k,
        {
            if kept[k] == gate {
                found = true;
            }
            k = k + 1;
        }
        proof {
            let next = moves@.take(i as int + 1);
            assert(next.drop_last() =~= moves@.take(i as int));
            assert(next.last() == gate);
            assert(found == kept@.contains(gate));
        }
        if !found {
            kept.push(gate);
        }
        i = i + 1;
    }
    assert(moves@.take(moves@.len() as int) =~= moves@);
    kept
}

/// The gates that `spec_dedup` keeps are gates of the list, each once.
pub proof fn lemma_dedup(moves: Seq<CX>)
    ensures
        forall|g: CX| spec_dedup(moves).contains(g) <==> moves.contains(g),
        forall|k: int, l: int|
            0 <= k < l < spec_dedup(moves).len() ==> #[trigger] spec_dedup(moves)[k] != #[trigger] spec_dedup(
                moves,
            )[l],
    decreases moves.len(),
{
    if moves.len() > 0 {
        let front = moves.drop_last();
        let last = moves.last();
        let kept = spec_dedup(front);
        let all = spec_dedup(moves);
        lemma_dedup(front);
        assert(all == if kept.contains(last) { kept } else { kept.push(last) });
        assert forall|g: CX| all.contains(g) <==> moves.contains(g) by {
            assert(kept.contains(g) <==> front.contains(g));
            if moves.contains(g) {
                let i = choose|i: int| 0 <= i < moves.len() && moves[i] == g;
                if i < moves.len() - 1 {
                    assert(front[i] == g);
                    assert(front.contains(g));
                    let j = choose|j: int| 0 <= j < kept.len() && kept[j] == g;
                    assert(all[j] == g);
                } else {
                    assert(g == last);
                    if !kept.contains(last) {
                        assert(all[kept.len() as int] == g);
                    }
                }
            }
            if all.contains(g) {
                let j = choose|j: int| 0 <= j < all.len() && all[j] == g;
                if j < kept.len() {
                    assert(kept[j] == g);
                    assert(kept.contains(g));
                    let i = choose|i: int| 0 <= i < front.len() && front[i] == g;
                    assert(moves[i] == g);
                } else {
                    assert(moves[moves.len() - 1] == g);
                }
            }
        }
        assert forall|k: int, l: int| 0 <= k < l < all.len() implies #[trigger] all[k] != #[trigger] all[l] by {
            if l < kept.len() {
                assert(kept[k] != kept[l]);
            } else {
                assert(all[l] == last);
                assert(all[k] == kept[k]);
                if kept[k] == last {
                    assert(kept.contains(last));
                }
            }
        }
    }
}

/// The search graph. Nodes are addressed by their position; position 0 is the root.
pub struct AStarGraph<V> {
    nodes: Vec<ANode>,
    values: Vec<V>,
    index: BiHashMap<usize, Vec<u16>, FxBuildHasher, FxBuildHasher>,
    allowed_moves: Vec<CX>,
}

impl<V: AStarValue> View for AStarGraph<V> {
    type V = GraphModel<V>;

    closed spec fn view(&self) -> GraphModel<V> {
        GraphModel {
            nodes: Seq::new(self.nodes@.len(), |i: int| self.nodes@[i]@),
            values: self.values@,
            moves: self.allowed_moves@,
        }
    }
}

impl<V: AStarValue> AStarGraph<V> {
    /// The graph's invariant: that of its model, and an index that holds the key
    /// of every node's value at the node's position.
    pub closed spec fn wf(&self) -> bool {
        &&& self@.wf()
        &&& self.nodes@.len() == self.values@.len()
        &&& index_pairs(self.index).dom() =~= Set::new(|i: usize| i < self.values@.len())
        &&& forall|i: usize| i < self.values@.len() ==> #[trigger] index_pairs(self.index)[i] == self.values@[i as int].key()
    }

    /// No two nodes hold the same value.
    pub proof fn lemma_no_value_twice(&self, i: int, j: int)
        requires
            self.wf(),
            0 <= i < self@.len(),
            0 <= j < self@.len(),
            i != j,
        ensures
            self@.values[i] != self@.values[j],
    {
        if i < j {
            assert(self@.values[i] != self@.values[j]);
        } else {
            assert(self@.values[j] != self@.values[i]);
        }
    }

    /// A graph that is well formed has a well-formed model.
    pub proof fn lemma_wf(&self)
        requires
            self.wf(),
        ensures
            self@.wf(),
    {
    }

    /// A graph of one node, the root, with the value `start`. Of the gates in
    /// `allowed_moves` each is kept once.
    pub fn new(start: V, allowed_moves: Vec<CX>) -> (g: AStarGraph<V>)
        requires
            forall|k: int| 0 <= k < allowed_moves@.len() ==> GraphModel::<V>::gate_ok(#[trigger] allowed_moves@[k]),
        ensures
            g.wf(),
            g@ == GraphModel::<V>::spec_new(start, spec_dedup(allowed_moves@)),
            start.spec_valid() ==> g@.spec_sound(),
    {
        proof {
            if start.spec_valid() {
                GraphModel::<V>::lemma_new_sound(start, spec_dedup(allowed_moves@));
            }
        }
        let key = start.encode();
        let mut index = index_new();
        assert(!index_pairs(index).contains_value(key@));
        index_insert(&mut index, 0, key);
        let mut nodes: Vec<ANode> = Vec::new();
        nodes.push(ANode::new_root());
        let mut values: Vec<V> = Vec::new();
        values.push(start);
        let moves = dedup_moves(&allowed_moves);
        let g = AStarGraph { nodes, values, index, allowed_moves: moves };
        proof {
            lemma_dedup(allowed_moves@);
            assert(g@.nodes =~= seq![spec_root_node()]);
            assert(g@.values =~= seq![start]);
            assert(g@.node_ok(0));
            assert forall|k: int| 0 <= k < g@.moves.len() implies GraphModel::<V>::gate_ok(#[trigger] g@.moves[k]) by {
                assert(spec_dedup(allowed_moves@).contains(g@.moves[k]));
                assert(allowed_moves@.contains(g@.moves[k]));
            }
            lemma_moves_bound(g@.moves);
            assert(index_pairs(g.index).dom() =~= Set::new(|i: usize| i < g.values@.len()));
        }
        g
    }

    /// Adds below `node` the node that `gate` leads to; that gate can be applied
    /// to the value of `node`. Where the value it leads to is in the graph
    /// already, or the cost or a count would leave the machine's integers,
    /// nothing is added and the answer is `None`.
    pub fn add_cx(&mut self, node: usize, gate: CX) -> (r: Option<usize>)
        requires
            old(self).wf(),
            node < old(self)@.len(),
            GraphModel::<V>::gate_ok(gate),
            old(self)@.values[node as int].spec_can_cx(gate.ctrl, gate.tgt),
        ensures
            final(self).wf(),
            final(self)@ == old(self)@.spec_add_cx(node as int, gate),
            r == if old(self)@.can_add_cx(node as int, gate) {
                Some(old(self)@.len() as usize)
            } else {
                None
            },
            old(self)@.nodes[node as int].cost < usize::MAX && old(self)@.len() < usize::MAX && spec_bump_fits(
                old(self)@.nodes[node as int].counts,
                gate.ctrl as int,
                gate.tgt as int,
            ) ==> (r is None <==> old(self)@.has_value(
                old(self)@.values[node as int].spec_cx(gate.ctrl, gate.tgt),
            )),
            old(self)@.spec_sound() ==> final(self)@.spec_sound(),
    {
        proof {
            if self@.spec_sound() {
                self.lemma_wf();
                self@.lemma_add_cx_sound(node as int, gate);
            }
        }
        let n = self.nodes.len();
        let cost = self.nodes[node].cost;
        let new_value = self.values[node].cx(gate.ctrl, gate.tgt);
        let key = new_value.encode();
        proof {
            self.lemma_index(new_value);
            self@.lemma_add_cx_wf(node as int, gate);
        }
        if index_contains_right(&self.index, &key) || cost == usize::MAX || n == usize::MAX {
            return None;
        }
        let counts = match bump_counts(&self.nodes[node].stats.cx_count_per_qb, gate.ctrl, gate.tgt) {
            Some(counts) => counts,
            None => {
                return None;
            },
        };
        let edge = AEdge::Op { op: gate, src: node, dst: n };
        index_insert(&mut self.index, n, key);
        self.values.push(new_value);
        self.nodes.push(ANode::new_child(edge, cost + 1, counts));
        self.nodes[node].next.push(edge);
        proof {
            let after = old(self)@.spec_add_cx(node as int, gate);
            assert(self@.nodes =~= after.nodes);
            assert(self@.values =~= after.values);
            assert(index_pairs(self.index).dom() =~= Set::new(|i: usize| i < self.values@.len()));
        }
        Some(n)
    }

    /// Adds the node that merges `src1` with `src2`: the value of `src1`, with the
    /// qubits in `used_qubits` taken from `src2`. Where the merged value is in the
    /// graph already, or where the cost or a count would leave the machine's
    /// integers, nothing is added and the answer is `None`. A sound graph stays
    /// sound where the qubits taken part the gates that the two nodes do not
    /// share.
    pub fn add_merge(&mut self, src1: usize, src2: usize, used_qubits: &QubitSet) -> (r: Option<usize>)
        requires
            old(self).wf(),
            src1 < old(self)@.len(),
            src2 < old(self)@.len(),
            forall|q: u8| used_qubits@.contains(q) ==> q < V::qubits(),
        ensures
            final(self).wf(),
            final(self)@ == old(self)@.spec_add_merge(src1 as int, src2 as int, used_qubits@),
            r == if old(self)@.can_add_merge(src1 as int, src2 as int, used_qubits@) {
                Some(old(self)@.len() as usize)
            } else {
                None
            },
            old(self)@.nodes[src1 as int].cost + old(self)@.nodes[src2 as int].cost <= usize::MAX && old(self)@.len()
                < usize::MAX && spec_sum_fits(
                old(self)@.nodes[src1 as int].counts,
                old(self)@.nodes[src2 as int].counts,
            ) ==> (r is None <==> old(self)@.has_value(
                old(self)@.values[src1 as int].spec_merge(&old(self)@.values[src2 as int], used_qubits@),
            )),
            old(self)@.spec_sound() && old(self)@.spec_parted(src1 as int, src2 as int, used_qubits@)
                ==> final(self)@.spec_sound(),
    {
        proof {
            if self@.spec_sound() && self@.spec_parted(src1 as int, src2 as int, used_qubits@) {
                self.lemma_wf();
                self@.lemma_add_merge_sound(src1 as int, src2 as int, used_qubits@);
            }
        }
        let n = self.nodes.len();
        let cost1 = self.nodes[src1].cost;
        let cost2 = self.nodes[src2].cost;
        let new_value = self.values[src1].merge(&self.values[src2], used_qubits);
        let key = new_value.encode();
        proof {
            self.lemma_index(new_value);
            self@.lemma_add_merge_wf(src1 as int, src2 as int, used_qubits@);
        }
        if index_contains_right(&self.index, &key) || cost2 > usize::MAX - cost1 || n == usize::MAX {
            return None;
        }
        let counts = match sum_counts(
            &self.nodes[src1].stats.cx_count_per_qb,
            &self.nodes[src2].stats.cx_count_per_qb,
        ) {
            Some(counts) => counts,
            None => {
                return None;
            },
        };
        let edge = AEdge::Merge { src1, src2, dst: n };
        index_insert(&mut self.index, n, key);
        self.values.push(new_value);
        self.nodes.push(ANode::new_child(edge, cost1 + cost2, counts));
        self.nodes[src1].next.push(edge);
        self.nodes[src2].next.push(edge);
        proof {
            let after = old(self)@.spec_add_merge(src1 as int, src2 as int, used_qubits@);
            assert(self@.nodes =~= after.nodes);
            assert(self@.values =~= after.values);
            assert(index_pairs(self.index).dom() =~= Set::new(|i: usize| i < self.values@.len()));
        }
        Some(n)
    }

    /// The index holds a key exactly when a node holds the value with that key.
    proof fn lemma_index(&self, v: V)
        requires
            self.wf(),
        ensures
            index_pairs(self.index).contains_value(v.key()) == self@.has_value(v),
    {
        let pairs = index_pairs(self.index);
        if pairs.contains_value(v.key()) {
            let i = choose|i: usize| pairs.dom().contains(i) && #[trigger] pairs[i] == v.key();
            assert(i < self.values@.len());
            self.values@[i as int].lemma_key_injective(&v);
            assert(self@.values[i as int] == v);
        }
        if self@.has_value(v) {
            let i = choose|i: int| 0 <= i < self@.values.len() && #[trigger] self@.values[i] == v;
            assert(pairs.dom().contains(i as usize));
            assert(pairs[i as usize] == v.key());
        }
    }

    /// The number of nodes.
    pub fn len(&self) -> (n: usize)
        requires
            self.wf(),
        ensures
            n == self@.len(),
    {
        self.nodes.len()
    }

    /// The position of the root.
    pub fn root_ind(&self) -> (r: usize)
        ensures
            r == 0,
    {
        0
    }

    /// The value of the root.
    pub fn root(&self) -> (v: &V)
        requires
            self.wf(),
        ensures
            *v == self@.values[0],
    {
        &self.values[0]
    }

    /// The value of node `ind`, if there is such a node.
    pub fn value(&self, ind: usize) -> (v: Option<&V>)
        requires
            self.wf(),
        ensures
            ind < self@.len() ==> v == Some(&self@.values[ind as int]),
            ind >= self@.len() ==> v is None,
    {
        if ind < self.values.len() {
            Some(&self.values[ind])
        } else {
            None
        }
    }

    /// The number of gates on the way to node `ind`.
    pub fn cost(&self, ind: usize) -> (c: usize)
        requires
            self.wf(),
            ind < self@.len(),
        ensures
            c == self@.nodes[ind as int].cost,
    {
        self.nodes[ind].cost
    }

    /// The edge by which node `ind` was reached; none for the root.
    pub fn prev_edge(&self, ind: usize) -> (e: Option<AEdge>)
        requires
            self.wf(),
            ind < self@.len(),
        ensures
            e == self@.nodes[ind as int].prev,
    {
        self.nodes[ind].prev
    }

    /// The edges that leave node `ind`.
    pub fn next_edges(&self, ind: usize) -> (edges: &Vec<AEdge>)
        requires
            self.wf(),
            ind < self@.len(),
        ensures
            edges@ == self@.nodes[ind as int].next,
    {
        &self.nodes[ind].next
    }

    /// Whether node `ind` has an outgoing edge.
    pub fn is_expanded(&self, ind: usize) -> (b: bool)
        requires
            self.wf(),
            ind < self@.len(),
        ensures
            b == (self@.nodes[ind as int].next.len() > 0),
    {
        self.nodes[ind].next.len() > 0
    }

    /// The nodes that the edges of node `ind` lead to.
    pub fn children(&self, ind: usize) -> (c: Vec<usize>)
        requires
            self.wf(),
            ind < self@.len(),
        ensures
            c@ == self@.spec_children(ind as int),
    {
        let mut c: Vec<usize> = Vec::new();
        let mut k: usize = 0;
        while k < self.nodes[ind].next.len()
            invariant
                ind < self.nodes@.len(),
                k <= self.nodes@[ind as int].next@.len(),
                c@.len() == k,
                forall|j: int| 0 <= j < k ==> c@[j] == self.nodes@[ind as int].next@[j].spec_dst(),
            decreases self.nodes@[ind as int].next@.len() - k,
        {
            c.push(self.nodes[ind].next[k].dst());
            k = k + 1;
        }
        assert(c@ =~= self@.spec_children(ind as int));
        c
    }

    /// How often the gates on the way to node `ind` acted on each qubit.
    pub fn cx_counts(&self, ind: usize) -> (counts: &Vec<u16>)
        requires
            self.wf(),
            ind < self@.len(),
        ensures
            counts@ == self@.nodes[ind as int].counts,
    {
        &self.nodes[ind].stats.cx_count_per_qb
    }

    /// The qubits that the gates on the way to `top` acted on more often than
    /// those on the way to `ind`. With `ind` on the way to `top`, these are the
    /// qubits of the gates between the two.
    pub fn disallowed_qubits(&self, ind: usize, top: usize) -> (qubits: QubitSet)
        requires
            self.wf(),
            ind < self@.len(),
            top < self@.len(),
        ensures
            qubits@ == self@.spec_disallowed(ind as int, top as int),
    {
        let lower = &self.nodes[ind].stats.cx_count_per_qb;
        let upper = &self.nodes[top].stats.cx_count_per_qb;
        let mut qubits = QubitSet::empty();
        let mut q: usize = 0;
        proof {
            assert(self@.node_ok(top as int));
        }
        while q < upper.len()
            invariant
                q <= upper@.len() <= 16,
                forall|p: u8| qubits@.contains(p) <==> (p < q && spec_count(upper@, p as int) > spec_count(lower@, p as int)),
            decreases upper@.len() - q,
        {
            let below: u16 = if q < lower.len() { lower[q] } else { 0 };
            if upper[q] > below {
                qubits.insert(q as u8);
            }
            q = q + 1;
        }
        assert(qubits@ =~= self@.spec_disallowed(ind as int, top as int));
        qubits
    }

    /// The gates of the CX edges that led to the nodes below `n` whose flag is
    /// set, in the order of the nodes.
    pub fn gates_where(&self, flags: &Vec<bool>, n: usize) -> (gates: Vec<CX>)
        requires
            self.wf(),
            n <= self@.len(),
            flags@.len() == self@.len(),
        ensures
            gates@ == self@.spec_gates_where(spec_marked(flags@), n as int),
    {
        let mut gates: Vec<CX> = Vec::new();
        let mut i: usize = 0;
        while i < n
            invariant
                i <= n <= self.nodes@.len(),
                flags@.len() == self.nodes@.len(),
                self.nodes@.len() == self@.nodes.len(),
                forall|k: int| 0 <= k < self.nodes@.len() ==> (#[trigger] self@.nodes[k]).prev == self.nodes@[k]@.prev,
                gates@ == self@.spec_gates_where(spec_marked(flags@), i as int),
            decreases n - i,
        {
            if flags[i] {
                match self.nodes[i].prev {
                    Some(AEdge::Op { op, .. }) => {
                        gates.push(op);
                    },
                    _ => {},
                }
            }
            i = i + 1;
        }
        gates
    }

    /// The circuit of node `ind`: the gates of the CX edges in its past, each
    /// once, in the order in which their nodes were made. In a graph whose
    /// circuits replay, as a graph made by expansions is, it gives the value of
    /// `ind` when replayed on the root's value.
    pub fn path(&self, ind: usize) -> (p: Vec<CX>)
        requires
            self.wf(),
            ind < self@.len(),
        ensures
            p@ == self@.spec_path(ind as int),
            self@.replays() ==> spec_replay(self@.values[0], p@) == self@.values[ind as int],
    {
        let past = self.backward_pass(ind);
        let p = self.gates_where(&past, ind + 1);
        proof {
            self@.lemma_gates_ext(self@, spec_marked(past@), self@.spec_past_of(ind as int), ind as int + 1);
        }
        p
    }

    /// The gates that the search may use, each once.
    pub fn allowed_moves(&self) -> (moves: &Vec<CX>)
        ensures
            moves@ == self@.moves,
    {
        &self.allowed_moves
    }
}

} // verus!
