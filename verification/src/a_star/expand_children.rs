//! Which children a node gets: the CX gates that may follow the edge that led to
//! it, and the merges with nodes whose gates act on other qubits.

use vstd::prelude::*;
use crate::a_star::AStarValue;
use crate::a_star::graph::{AEdge, AStarGraph, GraphModel};
use crate::cx::CX;
use crate::qubit_set::QubitSet;

verus! {

/// Whether `g` acts on a qubit that `op` acts on.
pub open spec fn spec_shares_qubit(g: CX, op: CX) -> bool {
    g.ctrl == op.ctrl || g.tgt == op.ctrl || g.ctrl == op.tgt || g.tgt == op.tgt
}

/// The gates of `moves` that act on a qubit of `op`, in their order.
pub open spec fn spec_sharing(moves: Seq<CX>, op: CX) -> Seq<CX>
    decreases moves.len(),
{
    if moves.len() == 0 {
        Seq::empty()
    } else {
        let front = spec_sharing(moves.drop_last(), op);
        if spec_shares_qubit(moves.last(), op) {
            front.push(moves.last())
        } else {
            front
        }
    }
}

/// The gates between the qubits of `op1` and those of `op2`, both ways round.
pub open spec fn spec_between(op1: CX, op2: CX) -> Seq<CX> {
    seq![
        CX { ctrl: op1.ctrl, tgt: op2.ctrl },
        CX { ctrl: op2.ctrl, tgt: op1.ctrl },
        CX { ctrl: op1.ctrl, tgt: op2.tgt },
        CX { ctrl: op2.tgt, tgt: op1.ctrl },
        CX { ctrl: op1.tgt, tgt: op2.ctrl },
        CX { ctrl: op2.ctrl, tgt: op1.tgt },
        CX { ctrl: op1.tgt, tgt: op2.tgt },
        CX { ctrl: op2.tgt, tgt: op1.tgt },
    ]
}

/// The gates of `gates` that are in `moves`, in their order.
pub open spec fn spec_allowed(gates: Seq<CX>, moves: Seq<CX>) -> Seq<CX>
    decreases gates.len(),
{
    if gates.len() == 0 {
        Seq::empty()
    } else {
        let front = spec_allowed(gates.drop_last(), moves);
        if moves.contains(gates.last()) {
            front.push(gates.last())
        } else {
            front
        }
    }
}

/// The set that a set of qubits stands for, where there is one.
pub open spec fn spec_opt_set(o: Option<QubitSet>) -> Option<Set<u8>> {
    match o {
        Some(s) => Some(s@),
        None => None,
    }
}

impl<V: AStarValue> GraphModel<V> {
    /// The CX of the edge that led to `node`, if a CX edge did.
    pub open spec fn spec_prev_op(self, node: int) -> Option<CX> {
        match self.nodes[node].prev {
            Some(AEdge::Op { op, .. }) => Some(op),
            _ => None,
        }
    }

    /// For a merge edge, the gates of the CX edges that led to its two sources;
    /// nothing where one of them was not reached by a CX edge.
    pub open spec fn spec_cx_qbs(self, edge: AEdge) -> Option<(CX, CX)> {
        match edge {
            AEdge::Merge { src1, src2, .. } => match (
                self.spec_prev_op(src1 as int),
                self.spec_prev_op(src2 as int),
            ) {
                (Some(op1), Some(op2)) => Some((op1, op2)),
                _ => None,
            },
            _ => None,
        }
    }

    /// The gates that are tried below `ind`, in the order in which they are
    /// tried. Below the root: every allowed gate. Below a CX edge: the allowed
    /// gates that share a qubit with its gate. Below a merge of two nodes that CX
    /// edges led to: the allowed gates between a qubit of the one gate and a qubit
    /// of the other. Below any other merge: none.
    pub open spec fn spec_cx_gates(self, ind: int) -> Seq<CX> {
        match self.nodes[ind].prev {
            None => self.moves,
            Some(AEdge::Op { op, .. }) => spec_sharing(self.moves, op),
            Some(edge) => match self.spec_cx_qbs(edge) {
                Some((op1, op2)) => spec_allowed(spec_between(op1, op2), self.moves),
                None => Seq::empty(),
            },
        }
    }

    /// The graph after the gates `gates` were added below `ind`, one after the other.
    pub open spec fn spec_add_all(self, ind: int, gates: Seq<CX>) -> GraphModel<V>
        decreases gates.len(),
    {
        if gates.len() == 0 {
            self
        } else {
            self.spec_add_all(ind, gates.drop_last()).spec_add_cx(ind, gates.last())
        }
    }

    /// Whether `a` is `ind` or lies on a way back from `ind` to the root.
    pub open spec fn spec_in_past(self, ind: int, a: int) -> bool
        decreases ind,
    {
        a == ind || match self.nodes[ind].prev {
            Some(AEdge::Op { src, .. }) => src < ind && self.spec_in_past(src as int, a),
            Some(AEdge::Merge { src1, src2, .. }) => (src1 < ind && self.spec_in_past(src1 as int, a)) || (src2
                < ind && self.spec_in_past(src2 as int, a)),
            None => false,
        }
    }

    /// The qubits that no gate on the way to `d` may touch if `d` is to be merged
    /// with `ind`. A node in the past of `ind` forbids the qubits of the gates
    /// between it and `ind`. A CX edge hands the forbidden qubits on if its gate
    /// touches none of them. A merge hands on those that both of its sources
    /// forbid. Nothing where the way to `d` touches a forbidden qubit.
    pub open spec fn spec_dis(self, ind: int, d: int) -> Option<Set<u8>>
        decreases d,
    {
        if self.spec_in_past(ind, d) {
            Some(self.spec_disallowed(d, ind))
        } else {
            match self.nodes[d].prev {
                Some(AEdge::Op { op, src, .. }) => if src < d {
                    match self.spec_dis(ind, src as int) {
                        Some(dis) => if dis.contains(op.ctrl) || dis.contains(op.tgt) {
                            None
                        } else {
                            Some(dis)
                        },
                        None => None,
                    }
                } else {
                    None
                },
                Some(AEdge::Merge { src1, src2, .. }) => if src1 < d && src2 < d {
                    match (self.spec_dis(ind, src1 as int), self.spec_dis(ind, src2 as int)) {
                        (Some(dis1), Some(dis2)) => Some(dis1.intersect(dis2)),
                        _ => None,
                    }
                } else {
                    None
                },
                None => None,
            }
        }
    }

    /// Whether `d` can be merged with `ind`: it is not in the past of `ind`, the
    /// way to it touches no forbidden qubit, and it has been expanded.
    pub open spec fn spec_candidate(self, ind: int, d: int) -> bool {
        &&& !self.spec_in_past(ind, d)
        &&& self.spec_dis(ind, d) is Some
        &&& self.nodes[d].next.len() > 0
    }

    /// The qubits that a merge of `ind` with `d` takes from `d`: those of the
    /// gates on the way to `d` since it left the past of `ind`. A source of the
    /// edge to `d` hands its own qubits on where it can itself be merged with
    /// `ind`.
    pub open spec fn spec_used(self, ind: int, d: int) -> Set<u8>
        decreases d,
    {
        match self.nodes[d].prev {
            Some(AEdge::Op { op, src, .. }) => if src < d {
                let base = if self.spec_candidate(ind, src as int) {
                    self.spec_used(ind, src as int)
                } else {
                    Set::empty()
                };
                base.insert(op.ctrl).insert(op.tgt)
            } else {
                Set::empty()
            },
            Some(AEdge::Merge { src1, src2, .. }) => if src1 < d && src2 < d {
                let base1 = if self.spec_candidate(ind, src1 as int) {
                    self.spec_used(ind, src1 as int)
                } else {
                    Set::empty()
                };
                let base2 = if self.spec_candidate(ind, src2 as int) {
                    self.spec_used(ind, src2 as int)
                } else {
                    Set::empty()
                };
                base1.union(base2)
            } else {
                Set::empty()
            },
            None => Set::empty(),
        }
    }

    /// The nodes below `n` that can be merged with `ind`, in increasing order,
    /// each with the qubits that the merge takes from it.
    pub open spec fn spec_candidates(self, ind: int, n: int) -> Seq<(usize, Set<u8>)>
        decreases n,
    {
        if n <= 0 {
            Seq::empty()
        } else {
            let front = self.spec_candidates(ind, n - 1);
            if self.spec_candidate(ind, n - 1) {
                front.push(((n - 1) as usize, self.spec_used(ind, n - 1)))
            } else {
                front
            }
        }
    }

    /// Whether `ind` may be the first node of a merge, with `target` the value
    /// that the search is to reach: `ind` is not the root and has no edge yet,
    /// and either a CX edge led to it, or a merge did and the value of `ind`
    /// agrees with `target` on the qubits of the CX gates that led to the
    /// sources of that merge.
    pub open spec fn spec_is_mergeable(self, ind: int, target: V) -> bool {
        &&& self.nodes[ind].next.len() == 0
        &&& match self.nodes[ind].prev {
            None => false,
            Some(AEdge::Op { .. }) => true,
            Some(AEdge::Merge { src1, src2, .. }) => {
                &&& self.spec_op_complete(ind, self.spec_prev_op(src1 as int), target)
                &&& self.spec_op_complete(ind, self.spec_prev_op(src2 as int), target)
            },
        }
    }

    /// Whether the value of `ind` agrees with `target` on the qubits of `op`.
    pub open spec fn spec_op_complete(self, ind: int, op: Option<CX>, target: V) -> bool {
        match op {
            Some(op) => self.values[ind].spec_is_complete(op.ctrl, &target) && self.values[ind].spec_is_complete(
                op.tgt,
                &target,
            ),
            None => true,
        }
    }

    /// The graph after the merges of `ind` with each of `partners`, one after the other.
    pub open spec fn spec_merge_all(self, ind: int, partners: Seq<(usize, Set<u8>)>) -> GraphModel<V>
        decreases partners.len(),
    {
        if partners.len() == 0 {
            self
        } else {
            self.spec_merge_all(ind, partners.drop_last()).spec_add_merge(
                ind,
                partners.last().0 as int,
                partners.last().1,
            )
        }
    }

    /// The graph after `ind` was expanded: first the CX children, then, if `ind`
    /// may still be the first node of a merge, its merges with the nodes that
    /// can be merged with it.
    pub open spec fn spec_expand(self, ind: int, target: V) -> GraphModel<V> {
        let with_cx = self.spec_add_all(ind, self.spec_cx_gates(ind));
        if with_cx.spec_is_mergeable(ind, target) {
            with_cx.spec_merge_all(ind, with_cx.spec_candidates(ind, with_cx.nodes.len() as int))
        } else {
            with_cx
        }
    }

    /// A node in the past of `ind` is not behind `ind`.
    pub proof fn lemma_in_past_below(self, ind: int, a: int)
        requires
            self.spec_in_past(ind, a),
        ensures
            a <= ind,
        decreases ind,
    {
        if a != ind {
            match self.nodes[ind].prev {
                Some(AEdge::Op { src, .. }) => {
                    self.lemma_in_past_below(src as int, a);
                },
                Some(AEdge::Merge { src1, src2, .. }) => {
                    if src1 < ind && self.spec_in_past(src1 as int, a) {
                        self.lemma_in_past_below(src1 as int, a);
                    } else {
                        self.lemma_in_past_below(src2 as int, a);
                    }
                },
                None => {},
            }
        }
    }

    /// The sources of the edge to a node in the past of `ind` are in its past too.
    pub proof fn lemma_in_past_step(self, ind: int, m: int, s: int)
        requires
            self.spec_in_past(ind, m),
            0 <= s < m <= usize::MAX,
            0 <= m < self.nodes.len(),
            self.nodes[m].prev is Some,
            self.nodes[m].prev->0.spec_srcs().contains(s as usize),
        ensures
            self.spec_in_past(ind, s),
        decreases ind,
    {
        let e = self.nodes[m].prev->0;
        if m == ind {
            let k = choose|k: int| 0 <= k < e.spec_srcs().len() && e.spec_srcs()[k] == s as usize;
            assert(self.spec_in_past(s, s));
            match e {
                AEdge::Op { src, .. } => {
                    assert(src == s);
                },
                AEdge::Merge { src1, src2, .. } => {
                    assert(src1 == s || src2 == s);
                },
            }
        } else {
            match self.nodes[ind].prev {
                Some(AEdge::Op { src, .. }) => {
                    self.lemma_in_past_step(src as int, m, s);
                },
                Some(AEdge::Merge { src1, src2, .. }) => {
                    if src1 < ind && self.spec_in_past(src1 as int, m) {
                        self.lemma_in_past_step(src1 as int, m, s);
                    } else {
                        self.lemma_in_past_step(src2 as int, m, s);
                    }
                },
                None => {},
            }
        }
    }

    /// A set of nodes that holds `x` and, with each node, the sources of the edge
    /// to it, holds the whole past of `x`.
    pub proof fn lemma_in_past_closed(self, flags: Seq<bool>, x: int, a: int)
        requires
            self.wf(),
            flags.len() == self.nodes.len(),
            0 <= x < flags.len(),
            flags[x],
            self.spec_in_past(x, a),
            forall|m: int, k: int|
                0 < m <= x && flags[m] && 0 <= k < self.nodes[m].prev->0.spec_srcs().len() ==> flags[#[trigger] self.nodes[m].prev->0.spec_srcs()[k] as int],
        ensures
            0 <= a < flags.len() ==> flags[a],
        decreases x,
    {
        if a != x {
            assert(self.node_ok(x));
            match self.nodes[x].prev {
                Some(AEdge::Op { src, .. }) => {
                    assert(self.nodes[x].prev->0.spec_srcs()[0] == src);
                    self.lemma_in_past_closed(flags, src as int, a);
                },
                Some(AEdge::Merge { src1, src2, .. }) => {
                    assert(self.nodes[x].prev->0.spec_srcs()[0] == src1);
                    assert(self.nodes[x].prev->0.spec_srcs()[1] == src2);
                    if src1 < x && self.spec_in_past(src1 as int, a) {
                        self.lemma_in_past_closed(flags, src1 as int, a);
                    } else {
                        self.lemma_in_past_closed(flags, src2 as int, a);
                    }
                },
                None => {},
            }
        }
    }
}

/// The two qubits of a gate, the control first.
pub open spec fn spec_qbs(op: CX) -> Seq<u8> {
    seq![op.ctrl, op.tgt]
}

/// What a list of merge partners stands for: each node with its set of qubits.
pub open spec fn spec_partners(out: Seq<(usize, QubitSet)>) -> Seq<(usize, Set<u8>)> {
    Seq::new(out.len(), |k: int| (out[k].0, out[k].1@))
}

/// The gates that `spec_sharing` keeps are gates of the list.
pub proof fn lemma_sharing_subset(moves: Seq<CX>, op: CX)
    ensures
        forall|k: int|
            0 <= k < spec_sharing(moves, op).len() ==> moves.contains(#[trigger] spec_sharing(moves, op)[k]),
    decreases moves.len(),
{
    if moves.len() > 0 {
        let front = moves.drop_last();
        lemma_sharing_subset(front, op);
        let kept = spec_sharing(front, op);
        assert forall|k: int| 0 <= k < spec_sharing(moves, op).len() implies moves.contains(
            #[trigger] spec_sharing(moves, op)[k],
        ) by {
            if k < kept.len() {
                assert(front.contains(kept[k]));
                let i = choose|i: int| 0 <= i < front.len() && front[i] == kept[k];
                assert(moves[i] == kept[k]);
            } else {
                assert(moves[moves.len() - 1] == moves.last());
            }
        }
    }
}

/// The gates that `spec_allowed` keeps are gates of `moves`.
pub proof fn lemma_allowed_subset(gates: Seq<CX>, moves: Seq<CX>)
    ensures
        forall|k: int|
            0 <= k < spec_allowed(gates, moves).len() ==> moves.contains(#[trigger] spec_allowed(gates, moves)[k]),
    decreases gates.len(),
{
    if gates.len() > 0 {
        let front = gates.drop_last();
        lemma_allowed_subset(front, moves);
        let kept = spec_allowed(front, moves);
        let all = spec_allowed(gates, moves);
        assert(all == if moves.contains(gates.last()) { kept.push(gates.last()) } else { kept });
        assert forall|k: int| 0 <= k < all.len() implies moves.contains(#[trigger] all[k]) by {
            if k < kept.len() {
                assert(all[k] == kept[k]);
            }
        }
    }
}

impl<V: AStarValue> GraphModel<V> {
    /// Adding gates below a node keeps the invariant and the allowed gates.
    pub proof fn lemma_add_all_wf(self, ind: int, gates: Seq<CX>)
        requires
            self.wf(),
            0 <= ind < self.len(),
            forall|k: int| 0 <= k < gates.len() ==> Self::gate_ok(#[trigger] gates[k]),
        ensures
            self.spec_add_all(ind, gates).wf(),
            self.spec_add_all(ind, gates).extends(self),
            self.spec_add_all(ind, gates).len() <= self.len() + gates.len(),
            self.ops_allowed() && (forall|k: int| 0 <= k < gates.len() ==> self.moves.contains(#[trigger] gates[k]))
                ==> self.spec_add_all(ind, gates).ops_allowed(),
        decreases gates.len(),
    {
        if gates.len() > 0 {
            let front = gates.drop_last();
            assert forall|k: int| 0 <= k < front.len() implies Self::gate_ok(#[trigger] front[k]) by {
                assert(front[k] == gates[k]);
            }
            self.lemma_add_all_wf(ind, front);
            assert(Self::gate_ok(gates[gates.len() - 1]));
            let middle = self.spec_add_all(ind, front);
            middle.lemma_add_cx_wf(ind, gates.last());
            self.spec_add_all(ind, gates).lemma_extends_trans(middle, self);
            if self.ops_allowed() && (forall|k: int| 0 <= k < gates.len() ==> self.moves.contains(#[trigger] gates[k])) {
                assert forall|k: int| 0 <= k < front.len() implies self.moves.contains(#[trigger] front[k]) by {
                    assert(front[k] == gates[k]);
                }
                assert(self.moves.contains(gates[gates.len() - 1]));
            }
        }
    }

    /// After gates were added below a node, the value that each of them leads to
    /// is in the graph, provided cost and counts leave room for one more gate.
    pub proof fn lemma_add_all_reaches(self, ind: int, gates: Seq<CX>, j: int)
        requires
            self.wf(),
            0 <= ind < self.len(),
            forall|k: int| 0 <= k < gates.len() ==> Self::gate_ok(#[trigger] gates[k]),
            0 <= j < gates.len(),
            self.nodes[ind].cost < usize::MAX,
            self.len() + gates.len() <= usize::MAX,
            self.nodes[ind].counts.len() == 0,
        ensures
            self.spec_add_all(ind, gates).has_value(self.values[ind].spec_cx(gates[j].ctrl, gates[j].tgt)),
        decreases gates.len(),
    {
        let front = gates.drop_last();
        let middle = self.spec_add_all(ind, front);
        let after = self.spec_add_all(ind, gates);
        let v = self.values[ind].spec_cx(gates[j].ctrl, gates[j].tgt);
        assert forall|k: int| 0 <= k < front.len() implies Self::gate_ok(#[trigger] front[k]) by {
            assert(front[k] == gates[k]);
        }
        self.lemma_add_all_wf(ind, front);
        assert(Self::gate_ok(gates[gates.len() - 1]));
        middle.lemma_add_cx_wf(ind, gates.last());
        if j < gates.len() - 1 {
            assert(front[j] == gates[j]);
            self.lemma_add_all_reaches(ind, front, j);
            let i = choose|i: int| 0 <= i < middle.values.len() && #[trigger] middle.values[i] == v;
            assert(after.values[i] == v);
        } else {
            assert(middle.values[ind] == self.values[ind]);
            assert(middle.nodes[ind].cost == self.nodes[ind].cost);
            assert(middle.nodes[ind].counts == self.nodes[ind].counts);
            if middle.can_add_cx(ind, gates.last()) {
                assert(after.values[middle.values.len() as int] == v);
            } else {
                assert(middle.has_value(v));
                assert(after == middle);
            }
        }
    }

    /// The gates that are tried below a node are allowed gates.
    pub proof fn lemma_cx_gates_ok(self, ind: int)
        requires
            self.wf(),
            0 <= ind < self.len(),
        ensures
            forall|k: int|
                0 <= k < self.spec_cx_gates(ind).len() ==> self.moves.contains(#[trigger] self.spec_cx_gates(ind)[k]),
            forall|k: int|
                0 <= k < self.spec_cx_gates(ind).len() ==> Self::gate_ok(#[trigger] self.spec_cx_gates(ind)[k]),
    {
        let gates = self.spec_cx_gates(ind);
        match self.nodes[ind].prev {
            None => {},
            Some(AEdge::Op { op, .. }) => {
                lemma_sharing_subset(self.moves, op);
            },
            Some(edge) => {
                match self.spec_cx_qbs(edge) {
                    Some((op1, op2)) => {
                        lemma_allowed_subset(spec_between(op1, op2), self.moves);
                    },
                    None => {},
                }
            },
        }
        assert forall|k: int| 0 <= k < gates.len() implies Self::gate_ok(#[trigger] gates[k]) by {
            assert(self.moves.contains(gates[k]));
            let i = choose|i: int| 0 <= i < self.moves.len() && self.moves[i] == gates[k];
            assert(Self::gate_ok(self.moves[i]));
        }
    }

    /// The qubits that a merge takes from a node are qubits of the values.
    pub proof fn lemma_used_small(self, ind: int, d: int)
        requires
            self.wf(),
            0 <= d < self.len(),
        ensures
            forall|q: u8| self.spec_used(ind, d).contains(q) ==> q < V::qubits(),
        decreases d,
    {
        assert(self.node_ok(d));
        match self.nodes[d].prev {
            Some(AEdge::Op { op, src, .. }) => {
                assert(self.prev_ok(d, self.nodes[d].prev->0));
                self.lemma_used_small(ind, src as int);
                assert(Self::gate_ok(op));
                let base = if self.spec_candidate(ind, src as int) {
                    self.spec_used(ind, src as int)
                } else {
                    Set::<u8>::empty()
                };
                assert(self.spec_used(ind, d) == base.insert(op.ctrl).insert(op.tgt));
                assert forall|q: u8| self.spec_used(ind, d).contains(q) implies q < V::qubits() by {
                    if q != op.ctrl && q != op.tgt {
                        assert(base.contains(q));
                    }
                }
            },
            Some(AEdge::Merge { src1, src2, .. }) => {
                assert(self.prev_ok(d, self.nodes[d].prev->0));
                self.lemma_used_small(ind, src1 as int);
                self.lemma_used_small(ind, src2 as int);
                let base1 = if self.spec_candidate(ind, src1 as int) {
                    self.spec_used(ind, src1 as int)
                } else {
                    Set::<u8>::empty()
                };
                let base2 = if self.spec_candidate(ind, src2 as int) {
                    self.spec_used(ind, src2 as int)
                } else {
                    Set::<u8>::empty()
                };
                assert(self.spec_used(ind, d) == base1.union(base2));
                assert forall|q: u8| self.spec_used(ind, d).contains(q) implies q < V::qubits() by {
                    assert(base1.contains(q) || base2.contains(q));
                }
            },
            None => {},
        }
    }

    /// The qubits that a merge with `ind` takes from a node are none of the
    /// qubits that are forbidden on the way to that node: the gates that lead to
    /// the node since its way left the past of `ind`, and the gates of `ind`
    /// since then, act on different qubits.
    pub proof fn lemma_used_disjoint(self, ind: int, d: int)
        requires
            self.wf(),
            0 <= d < self.len(),
            !self.spec_in_past(ind, d),
            self.spec_dis(ind, d) is Some,
        ensures
            self.spec_used(ind, d).disjoint(self.spec_dis(ind, d)->0),
        decreases d,
    {
        assert(self.node_ok(d));
        let forbidden = self.spec_dis(ind, d)->0;
        match self.nodes[d].prev {
            Some(AEdge::Op { op, src, .. }) => {
                assert(self.prev_ok(d, self.nodes[d].prev->0));
                let base = if self.spec_candidate(ind, src as int) {
                    self.spec_used(ind, src as int)
                } else {
                    Set::<u8>::empty()
                };
                if self.spec_candidate(ind, src as int) {
                    self.lemma_used_disjoint(ind, src as int);
                }
                assert(self.spec_dis(ind, src as int) == Some(forbidden));
                assert(self.spec_used(ind, d) == base.insert(op.ctrl).insert(op.tgt));
                assert forall|q: u8| self.spec_used(ind, d).contains(q) implies !forbidden.contains(q) by {
                    if q != op.ctrl && q != op.tgt {
                        assert(base.contains(q));
                    }
                }
            },
            Some(AEdge::Merge { src1, src2, .. }) => {
                assert(self.prev_ok(d, self.nodes[d].prev->0));
                let base1 = if self.spec_candidate(ind, src1 as int) {
                    self.spec_used(ind, src1 as int)
                } else {
                    Set::<u8>::empty()
                };
                let base2 = if self.spec_candidate(ind, src2 as int) {
                    self.spec_used(ind, src2 as int)
                } else {
                    Set::<u8>::empty()
                };
                if self.spec_candidate(ind, src1 as int) {
                    self.lemma_used_disjoint(ind, src1 as int);
                }
                if self.spec_candidate(ind, src2 as int) {
                    self.lemma_used_disjoint(ind, src2 as int);
                }
                assert(self.spec_used(ind, d) == base1.union(base2));
                assert forall|q: u8| self.spec_used(ind, d).contains(q) implies !forbidden.contains(q) by {
                    assert(base1.contains(q) || base2.contains(q));
                }
            },
            None => {},
        }
    }

    /// The nodes that can be merged with `ind` are nodes of the graph, and the
    /// qubits taken from them are qubits of the values.
    pub proof fn lemma_candidates(self, ind: int, n: int)
        requires
            self.wf(),
            0 <= n <= self.len(),
        ensures
            forall|k: int|
                0 <= k < self.spec_candidates(ind, n).len() ==> {
                    let c = #[trigger] self.spec_candidates(ind, n)[k];
                    &&& c.0 < n
                    &&& self.spec_candidate(ind, c.0 as int)
                    &&& c.1 == self.spec_used(ind, c.0 as int)
                    &&& forall|q: u8| c.1.contains(q) ==> q < V::qubits()
                },
        decreases n,
    {
        if n > 0 {
            self.lemma_candidates(ind, n - 1);
            self.lemma_used_small(ind, n - 1);
            let front = self.spec_candidates(ind, n - 1);
            let all = self.spec_candidates(ind, n);
            assert(all == if self.spec_candidate(ind, n - 1) {
                front.push(((n - 1) as usize, self.spec_used(ind, n - 1)))
            } else {
                front
            });
            assert forall|k: int| 0 <= k < all.len() implies {
                let c = #[trigger] all[k];
                &&& c.0 < n
                &&& self.spec_candidate(ind, c.0 as int)
                &&& c.1 == self.spec_used(ind, c.0 as int)
                &&& forall|q: u8| c.1.contains(q) ==> q < V::qubits()
            } by {
                if k < front.len() {
                    assert(all[k] == front[k]);
                }
            }
        }
    }

    /// Adding merges keeps the invariant.
    pub proof fn lemma_merge_all_wf(self, ind: int, partners: Seq<(usize, Set<u8>)>)
        requires
            self.wf(),
            0 <= ind < self.len(),
            forall|k: int| 0 <= k < partners.len() ==> (#[trigger] partners[k]).0 < self.len(),
        ensures
            self.spec_merge_all(ind, partners).wf(),
            self.spec_merge_all(ind, partners).extends(self),
            self.ops_allowed() ==> self.spec_merge_all(ind, partners).ops_allowed(),
        decreases partners.len(),
    {
        if partners.len() > 0 {
            let front = partners.drop_last();
            assert forall|k: int| 0 <= k < front.len() implies (#[trigger] front[k]).0 < self.len() by {
                assert(front[k] == partners[k]);
            }
            self.lemma_merge_all_wf(ind, front);
            assert(partners[partners.len() - 1].0 < self.len());
            let middle = self.spec_merge_all(ind, front);
            middle.lemma_add_merge_wf(ind, partners.last().0 as int, partners.last().1);
            self.spec_merge_all(ind, partners).lemma_extends_trans(middle, self);
        }
    }

    /// Adding gates below a node keeps a sound graph sound.
    pub proof fn lemma_add_all_sound(self, ind: int, gates: Seq<CX>)
        requires
            self.wf(),
            self.spec_sound(),
            0 <= ind < self.len(),
            forall|k: int| 0 <= k < gates.len() ==> Self::gate_ok(#[trigger] gates[k]),
        ensures
            self.spec_add_all(ind, gates).spec_sound(),
        decreases gates.len(),
    {
        if gates.len() > 0 {
            let front = gates.drop_last();
            assert forall|k: int| 0 <= k < front.len() implies Self::gate_ok(#[trigger] front[k]) by {
                assert(front[k] == gates[k]);
            }
            self.lemma_add_all_wf(ind, front);
            self.lemma_add_all_sound(ind, front);
            assert(Self::gate_ok(gates[gates.len() - 1]));
            self.spec_add_all(ind, front).lemma_add_cx_sound(ind, gates.last());
        }
    }

    /// Adding merges keeps a sound graph sound, where the qubits taken from each
    /// partner part the gates that the node and the partner do not share.
    pub proof fn lemma_merge_all_sound(self, ind: int, partners: Seq<(usize, Set<u8>)>)
        requires
            self.wf(),
            self.spec_sound(),
            0 <= ind < self.len(),
            forall|k: int|
                0 <= k < partners.len() ==> (#[trigger] partners[k]).0 < self.len() && self.spec_parted(
                    ind,
                    partners[k].0 as int,
                    partners[k].1,
                ),
        ensures
            self.spec_merge_all(ind, partners).spec_sound(),
        decreases partners.len(),
    {
        if partners.len() > 0 {
            let front = partners.drop_last();
            assert forall|k: int| 0 <= k < front.len() implies (#[trigger] front[k]).0 < self.len()
                && self.spec_parted(ind, front[k].0 as int, front[k].1) by {
                assert(front[k] == partners[k]);
            }
            self.lemma_merge_all_wf(ind, front);
            self.lemma_merge_all_sound(ind, front);
            let last = partners[partners.len() - 1];
            assert(last.0 < self.len() && self.spec_parted(ind, last.0 as int, last.1));
            let middle = self.spec_merge_all(ind, front);
            middle.lemma_parted_kept(self, ind, last.0 as int, last.1);
            middle.lemma_add_merge_sound(ind, last.0 as int, last.1);
        }
    }

    /// Expanding a node keeps a sound graph sound: every merge that is made
    /// gives the value that the gates of its two nodes give.
    pub proof fn lemma_expand_sound(self, ind: int, target: V)
        requires
            self.wf(),
            self.spec_sound(),
            0 <= ind < self.len(),
        ensures
            self.spec_expand(ind, target).spec_sound(),
    {
        self.lemma_cx_gates_ok(ind);
        self.lemma_add_all_wf(ind, self.spec_cx_gates(ind));
        self.lemma_add_all_sound(ind, self.spec_cx_gates(ind));
        let with_cx = self.spec_add_all(ind, self.spec_cx_gates(ind));
        let partners = with_cx.spec_candidates(ind, with_cx.nodes.len() as int);
        with_cx.lemma_candidates(ind, with_cx.nodes.len() as int);
        assert forall|k: int| 0 <= k < partners.len() implies (#[trigger] partners[k]).0 < with_cx.len()
            && with_cx.spec_parted(ind, partners[k].0 as int, partners[k].1) by {
            with_cx.lemma_candidate_parted(ind, partners[k].0 as int);
        }
        with_cx.lemma_merge_all_sound(ind, partners);
    }

    /// Expanding a node keeps the invariant and the allowed gates.
    pub proof fn lemma_expand_wf(self, ind: int, target: V)
        requires
            self.wf(),
            0 <= ind < self.len(),
        ensures
            self.spec_expand(ind, target).wf(),
            self.spec_expand(ind, target).extends(self),
            self.ops_allowed() ==> self.spec_expand(ind, target).ops_allowed(),
    {
        self.lemma_cx_gates_ok(ind);
        self.lemma_add_all_wf(ind, self.spec_cx_gates(ind));
        let with_cx = self.spec_add_all(ind, self.spec_cx_gates(ind));
        with_cx.lemma_candidates(ind, with_cx.nodes.len() as int);
        with_cx.lemma_merge_all_wf(ind, with_cx.spec_candidates(ind, with_cx.nodes.len() as int));
        self.spec_expand(ind, target).lemma_extends_trans(with_cx, self);
    }

    /// Without allowed gates, expanding the root changes nothing.
    pub proof fn lemma_expand_root_alone(self, target: V)
        requires
            self.wf(),
            self.moves.len() == 0,
        ensures
            self.spec_expand(0, target) == self,
    {
        assert(self.node_ok(0));
        assert(self.spec_cx_gates(0) == self.moves);
        assert(self.spec_add_all(0, self.moves) == self);
        assert(!self.spec_is_mergeable(0, target));
    }

    /// The nodes that gates below a node add are reached by CX edges from that node.
    pub proof fn lemma_add_all_children(self, ind: int, gates: Seq<CX>, c: int)
        requires
            self.wf(),
            0 <= ind < self.len(),
            forall|k: int| 0 <= k < gates.len() ==> Self::gate_ok(#[trigger] gates[k]),
            self.len() <= c < self.spec_add_all(ind, gates).len(),
        ensures
            self.spec_add_all(ind, gates).nodes[c].prev matches Some(AEdge::Op { src, .. }) && src == ind,
        decreases gates.len(),
    {
        if gates.len() > 0 {
            let front = gates.drop_last();
            assert forall|k: int| 0 <= k < front.len() implies Self::gate_ok(#[trigger] front[k]) by {
                assert(front[k] == gates[k]);
            }
            self.lemma_add_all_wf(ind, front);
            assert(Self::gate_ok(gates[gates.len() - 1]));
            let middle = self.spec_add_all(ind, front);
            let after = self.spec_add_all(ind, gates);
            middle.lemma_add_cx_wf(ind, gates.last());
            if c < middle.len() {
                self.lemma_add_all_children(ind, front, c);
                assert(after.nodes[c].prev == middle.nodes[c].prev);
            }
        }
    }

    /// After the root of a graph of the root alone was expanded, the way to
    /// every other node is one gate.
    pub proof fn lemma_expand_root_paths(self, target: V, c: int)
        requires
            self.wf(),
            self.len() == 1,
            1 <= c < self.spec_expand(0, target).len(),
        ensures
            self.spec_expand(0, target).spec_path(c).len() == 1,
    {
        assert(self.node_ok(0));
        assert(self.spec_cx_gates(0) == self.moves);
        self.lemma_add_all_wf(0, self.moves);
        let grown = self.spec_add_all(0, self.moves);
        assert(grown.nodes[0].prev == self.nodes[0].prev);
        assert(!grown.spec_is_mergeable(0, target));
        assert(self.spec_expand(0, target) == grown);
        self.lemma_add_all_children(0, self.moves, c);
        grown.lemma_path_op(c);
        grown.lemma_path_root();
    }

    /// Expanding the root brings into the graph every value that one allowed
    /// gate leads to from the root's value.
    pub proof fn lemma_expand_root_reaches(self, target: V, j: int)
        requires
            self.wf(),
            self.len() == 1,
            0 <= j < self.moves.len(),
        ensures
            self.spec_expand(0, target).has_value(self.values[0].spec_cx(self.moves[j].ctrl, self.moves[j].tgt)),
    {
        assert(self.node_ok(0));
        assert(self.spec_cx_gates(0) == self.moves);
        self.lemma_add_all_wf(0, self.moves);
        self.lemma_add_all_reaches(0, self.moves, j);
        let with_cx = self.spec_add_all(0, self.moves);
        assert(with_cx.nodes[0].prev == self.nodes[0].prev);
        assert(!with_cx.spec_is_mergeable(0, target));
        assert(self.spec_expand(0, target) == with_cx);
    }
}

impl<V: AStarValue> AStarGraph<V> {
    /// Whether `gate` is one of the allowed gates.
    pub fn is_allowed(&self, gate: CX) -> (b: bool)
        ensures
            b == self@.moves.contains(gate),
    {
        let moves = self.allowed_moves();
        let mut k: usize = 0;
        while k < moves.len()
            invariant
                k <= moves@.len(),
                moves@ == self@.moves,
                forall|j: int| 0 <= j < k ==> moves@[j] != gate,
            decreases moves@.len() - k,
        {
            if moves[k] == gate {
                assert(moves@[k as int] == gate);
                assert(self@.moves.contains(gate));
                return true;
            }
            k = k + 1;
        }
        false
    }

    /// Given a merge edge, the qubits of the CX gates that led to its two
    /// sources. Nothing if one of the two was not reached by a CX edge.
    pub fn get_cx_qbs(&self, edge: &AEdge) -> (r: Option<([u8; 2], [u8; 2])>)
        requires
            self.wf(),
            *edge is Merge,
            edge->src1 < self@.len(),
            edge->src2 < self@.len(),
        ensures
            match self@.spec_cx_qbs(*edge) {
                Some((op1, op2)) => r matches Some(pair) && pair.0@ == spec_qbs(op1) && pair.1@ == spec_qbs(op2),
                None => r is None,
            },
    {
        match *edge {
            AEdge::Merge { src1, src2, .. } => {
                let op1 = match self.prev_edge(src1) {
                    Some(AEdge::Op { op, .. }) => op,
                    _ => {
                        return None;
                    },
                };
                let op2 = match self.prev_edge(src2) {
                    Some(AEdge::Op { op, .. }) => op,
                    _ => {
                        return None;
                    },
                };
                let q1: [u8; 2] = [op1.ctrl, op1.tgt];
                let q2: [u8; 2] = [op2.ctrl, op2.tgt];
                assert(q1@ =~= spec_qbs(op1));
                assert(q2@ =~= spec_qbs(op2));
                Some((q1, q2))
            },
            AEdge::Op { .. } => None,
        }
    }

    /// Whether the value of `ind` agrees with `target` on the qubits of the CX
    /// gate that led to `src`, if one did.
    fn op_complete(&self, ind: usize, src: usize, target: &V) -> (done: bool)
        requires
            self.wf(),
            ind < self@.len(),
            src < self@.len(),
        ensures
            done == self@.spec_op_complete(ind as int, self@.spec_prev_op(src as int), *target),
    {
        proof {
            self.lemma_wf();
            assert(self@.node_ok(src as int));
        }
        match self.prev_edge(src) {
            Some(AEdge::Op { op, .. }) => {
                assert(src > 0);
                assert(self@.prev_ok(src as int, self@.nodes[src as int].prev->0));
                let value = self.value(ind).unwrap();
                value.is_complete(op.ctrl, target) && value.is_complete(op.tgt, target)
            },
            _ => true,
        }
    }

    /// Whether `ind` can be the first node of a merge: it is not the root, it has
    /// not been expanded, and either a CX edge led to it, or the qubits of the
    /// CX gates before the merge that led to it need no further gate to reach
    /// `target`.
    pub fn is_mergeable(&self, ind: usize, target: &V) -> (b: bool)
        requires
            self.wf(),
            ind < self@.len(),
        ensures
            b == self@.spec_is_mergeable(ind as int, *target),
    {
        if self.is_expanded(ind) {
            return false;
        }
        proof {
            self.lemma_wf();
            assert(self@.node_ok(ind as int));
        }
        match self.prev_edge(ind) {
            None => false,
            Some(AEdge::Op { .. }) => true,
            Some(AEdge::Merge { src1, src2, .. }) => {
                assert(self@.prev_ok(ind as int, self@.nodes[ind as int].prev->0));
                let first = self.op_complete(ind, src1, target);
                let second = self.op_complete(ind, src2, target);
                first && second
            },
        }
    }

    /// Marks the nodes in the past of `ind`: `ind` itself and, with each node, the
    /// sources of the edge that led to it.
    pub fn backward_pass(&self, ind: usize) -> (past: Vec<bool>)
        requires
            self.wf(),
            ind < self@.len(),
        ensures
            past@.len() == self@.len(),
            forall|a: int| 0 <= a < past@.len() ==> past@[a] == self@.spec_in_past(ind as int, a),
    {
        let n = self.len();
        let mut past: Vec<bool> = Vec::new();
        let mut i: usize = 0;
        while i < n
            invariant
                i <= n,
                ind < n,
                past@.len() == i,
                forall|j: int| 0 <= j < i ==> past@[j] == (j == ind),
            decreases n - i,
        {
            past.push(i == ind);
            i = i + 1;
        }
        let mut d: usize = ind;
        proof {
            self.lemma_wf();
        }
        while d > 0
            invariant
                self.wf(),
                self@.wf(),
                n == self@.len(),
                d <= ind < n,
                past@.len() == n,
                past@[ind as int],
                forall|a: int| 0 <= a < n && past@[a] ==> self@.spec_in_past(ind as int, a),
                forall|m: int, k: int|
                    d < m <= ind && past@[m] && 0 <= k < self@.nodes[m].prev->0.spec_srcs().len() ==> past@[#[trigger] self@.nodes[m].prev->0.spec_srcs()[k] as int],
            decreases d,
        {
            proof {
                assert(self@.node_ok(d as int));
                assert(self@.prev_ok(d as int, self@.nodes[d as int].prev->0));
            }
            let ghost before = past@;
            if past[d] {
                match self.prev_edge(d) {
                    Some(AEdge::Op { src, .. }) => {
                        proof {
                            assert(self@.nodes[d as int].prev->0.spec_srcs()[0] == src);
                            self@.lemma_in_past_step(ind as int, d as int, src as int);
                        }
                        past.set(src, true);
                    },
                    Some(AEdge::Merge { src1, src2, .. }) => {
                        proof {
                            assert(self@.nodes[d as int].prev->0.spec_srcs()[0] == src1);
                            assert(self@.nodes[d as int].prev->0.spec_srcs()[1] == src2);
                            self@.lemma_in_past_step(ind as int, d as int, src1 as int);
                            self@.lemma_in_past_step(ind as int, d as int, src2 as int);
                        }
                        past.set(src1, true);
                        past.set(src2, true);
                    },
                    None => {},
                }
            }
            proof {
                assert(forall|a: int| 0 <= a < n && before[a] ==> past@[a]);
                assert(forall|a: int| d <= a < n ==> past@[a] == before[a]);
                assert forall|m: int, k: int|
                    d - 1 < m <= ind && past@[m] && 0 <= k < self@.nodes[m].prev->0.spec_srcs().len() implies past@[#[trigger] self@.nodes[m].prev->0.spec_srcs()[k] as int] by {
                    let srcs = self@.nodes[m].prev->0.spec_srcs();
                    if m == d {
                        match self@.nodes[d as int].prev->0 {
                            AEdge::Op { src, .. } => {
                                assert(srcs[k] == src);
                            },
                            AEdge::Merge { src1, src2, .. } => {
                                assert(srcs[k] == src1 || srcs[k] == src2);
                            },
                        }
                    } else {
                        assert(self@.node_ok(m));
                        assert(self@.prev_ok(m, self@.nodes[m].prev->0));
                        assert(before[srcs[k] as int]);
                    }
                }
            }
            d = d - 1;
        }
        proof {
            assert forall|a: int| 0 <= a < past@.len() implies past@[a] == self@.spec_in_past(ind as int, a) by {
                if self@.spec_in_past(ind as int, a) {
                    assert forall|m: int, k: int|
                        0 < m <= ind && past@[m] && 0 <= k < self@.nodes[m].prev->0.spec_srcs().len() implies past@[#[trigger] self@.nodes[m].prev->0.spec_srcs()[k] as int] by {}
                    self@.lemma_in_past_closed(past@, ind as int, a);
                }
            }
        }
        past
    }

    /// Finds, node by node from the root on, the nodes that can be merged with
    /// `ind`, given the marks of the nodes in its past.
    pub fn forward_pass(&self, ind: usize, past: &Vec<bool>) -> (out: Vec<(usize, QubitSet)>)
        requires
            self.wf(),
            ind < self@.len(),
            past@.len() == self@.len(),
            forall|a: int| 0 <= a < past@.len() ==> past@[a] == self@.spec_in_past(ind as int, a),
        ensures
            spec_partners(out@) == self@.spec_candidates(ind as int, self@.len() as int),
    {
        let n = self.len();
        let mut dis: Vec<Option<QubitSet>> = Vec::new();
        let mut cand: Vec<bool> = Vec::new();
        let mut used: Vec<QubitSet> = Vec::new();
        let mut out: Vec<(usize, QubitSet)> = Vec::new();
        let mut d: usize = 0;
        proof {
            self.lemma_wf();
            assert(spec_partners(out@) =~= self@.spec_candidates(ind as int, 0));
        }
        while d < n
            invariant
                self.wf(),
                self@.wf(),
                n == self@.len(),
                ind < n,
                d <= n,
                past@.len() == n,
                forall|a: int| 0 <= a < n ==> past@[a] == self@.spec_in_past(ind as int, a),
                dis@.len() == d,
                cand@.len() == d,
                used@.len() == d,
                forall|a: int| 0 <= a < d ==> spec_opt_set(#[trigger] dis@[a]) == self@.spec_dis(ind as int, a),
                forall|a: int| 0 <= a < d ==> #[trigger] cand@[a] == self@.spec_candidate(ind as int, a),
                forall|a: int| 0 <= a < d && cand@[a] ==> (#[trigger] used@[a])@ == self@.spec_used(ind as int, a),
                spec_partners(out@) == self@.spec_candidates(ind as int, d as int),
            decreases n - d,
        {
            let is_past = past[d];
            let mut dis_d: Option<QubitSet> = None;
            let mut used_d = QubitSet::empty();
            proof {
                assert(self@.node_ok(d as int));
            }
            if is_past {
                dis_d = Some(self.disallowed_qubits(d, ind));
            } else {
                match self.prev_edge(d) {
                    Some(AEdge::Op { op, src, .. }) => {
                        assert(self@.prev_ok(d as int, self@.nodes[d as int].prev->0));
                        match dis[src] {
                            Some(forbidden) => {
                                if !forbidden.contains(op.ctrl) && !forbidden.contains(op.tgt) {
                                    dis_d = Some(forbidden);
                                    if cand[src] {
                                        used_d = used[src];
                                    }
                                    used_d.insert(op.ctrl);
                                    used_d.insert(op.tgt);
                                }
                            },
                            None => {},
                        }
                    },
                    Some(AEdge::Merge { src1, src2, .. }) => {
                        assert(self@.prev_ok(d as int, self@.nodes[d as int].prev->0));
                        match (dis[src1], dis[src2]) {
                            (Some(first), Some(second)) => {
                                dis_d = Some(first.intersection(&second));
                                if cand[src1] {
                                    used_d = used[src1];
                                }
                                if cand[src2] {
                                    used_d = used_d.union(&used[src2]);
                                }
                                assert(used_d@ =~= self@.spec_used(ind as int, d as int));
                            },
                            _ => {},
                        }
                    },
                    None => {},
                }
            }
            let is_cand = !is_past && dis_d.is_some() && self.is_expanded(d);
            assert(spec_opt_set(dis_d) == self@.spec_dis(ind as int, d as int));
            assert(is_cand == self@.spec_candidate(ind as int, d as int));
            assert(is_cand ==> used_d@ == self@.spec_used(ind as int, d as int));
            let ghost out0 = out@;
            dis.push(dis_d);
            cand.push(is_cand);
            used.push(used_d);
            if is_cand {
                out.push((d, used_d));
            }
            proof {
                let before = self@.spec_candidates(ind as int, d as int);
                let after = self@.spec_candidates(ind as int, d as int + 1);
                assert(spec_partners(out0) == before);
                if is_cand {
                    assert(after == before.push((d, self@.spec_used(ind as int, d as int))));
                    assert(spec_partners(out@) =~= after);
                } else {
                    assert(after == before);
                }
            }
            d = d + 1;
        }
        out
    }

    /// Finds the nodes that can be merged with `ind`, in increasing order, each
    /// with the qubits that the merge takes from it.
    pub fn find_mergeable_nodes(&self, ind: usize) -> (out: Vec<(usize, QubitSet)>)
        requires
            self.wf(),
            ind < self@.len(),
            self@.nodes[ind as int].next.len() == 0,
        ensures
            spec_partners(out@) == self@.spec_candidates(ind as int, self@.len() as int),
    {
        let past = self.backward_pass(ind);
        self.forward_pass(ind, &past)
    }

    /// The gates that are tried below `ind`, in the order in which they are tried.
    pub fn cx_gates(&self, ind: usize) -> (gates: Vec<CX>)
        requires
            self.wf(),
            ind < self@.len(),
        ensures
            gates@ == self@.spec_cx_gates(ind as int),
    {
        let mut gates: Vec<CX> = Vec::new();
        proof {
            self.lemma_wf();
            assert(self@.node_ok(ind as int));
        }
        match self.prev_edge(ind) {
            None => {
                let moves = self.allowed_moves();
                let mut k: usize = 0;
                while k < moves.len()
                    invariant
                        k <= moves@.len(),
                        gates@ == moves@.take(k as int),
                    decreases moves@.len() - k,
                {
                    gates.push(moves[k]);
                    assert(gates@ =~= moves@.take(k as int + 1));
                    k = k + 1;
                }
                assert(moves@.take(moves@.len() as int) =~= moves@);
            },
            Some(AEdge::Op { op, .. }) => {
                let moves = self.allowed_moves();
                let mut k: usize = 0;
                assert(gates@ =~= spec_sharing(moves@.take(0), op));
                while k < moves.len()
                    invariant
                        k <= moves@.len(),
                        gates@ == spec_sharing(moves@.take(k as int), op),
                    decreases moves@.len() - k,
                {
                    let g = moves[k];
                    proof {
                        let next = moves@.take(k as int + 1);
                        assert(next.drop_last() =~= moves@.take(k as int));
                        assert(next.last() == g);
                    }
                    if g.ctrl == op.ctrl || g.tgt == op.ctrl || g.ctrl == op.tgt || g.tgt == op.tgt {
                        gates.push(g);
                    }
                    k = k + 1;
                }
                assert(moves@.take(moves@.len() as int) =~= moves@);
            },
            Some(edge) => {
                assert(self@.prev_ok(ind as int, edge));
                match self.get_cx_qbs(&edge) {
                    Some((q1, q2)) => {
                        let ghost ops = self@.spec_cx_qbs(edge)->0;
                        let ghost between = spec_between(ops.0, ops.1);
                        let mut i: usize = 0;
                        assert(gates@ =~= spec_allowed(between.take(0), self@.moves));
                        while i < 2
                            invariant
                                i <= 2,
                                q1@ == spec_qbs(ops.0),
                                q2@ == spec_qbs(ops.1),
                                between == spec_between(ops.0, ops.1),
                                gates@ == spec_allowed(between.take(4 * i as int), self@.moves),
                            decreases 2 - i,
                        {
                            let mut j: usize = 0;
                            while j < 2
                                invariant
                                    i < 2,
                                    j <= 2,
                                    q1@ == spec_qbs(ops.0),
                                    q2@ == spec_qbs(ops.1),
                                    between == spec_between(ops.0, ops.1),
                                    gates@ == spec_allowed(between.take(4 * i as int + 2 * j as int), self@.moves),
                                decreases 2 - j,
                            {
                                let cx = CX { ctrl: q1[i], tgt: q2[j] };
                                let rev_cx = CX { ctrl: q2[j], tgt: q1[i] };
                                proof {
                                    let at = 4 * i as int + 2 * j as int;
                                    assert(q1@[0] == ops.0.ctrl && q1@[1] == ops.0.tgt);
                                    assert(q2@[0] == ops.1.ctrl && q2@[1] == ops.1.tgt);
                                    assert(between.len() == 8);
                                    if i == 0 && j == 0 {
                                        assert(between[0] == cx && between[1] == rev_cx);
                                    } else if i == 0 && j == 1 {
                                        assert(between[2] == cx && between[3] == rev_cx);
                                    } else if i == 1 && j == 0 {
                                        assert(between[4] == cx && between[5] == rev_cx);
                                    } else {
                                        assert(between[6] == cx && between[7] == rev_cx);
                                    }
                                    assert(between.take(at + 1).drop_last() =~= between.take(at));
                                    assert(between.take(at + 2).drop_last() =~= between.take(at + 1));
                                    assert(between.take(at + 1).last() == cx);
                                    assert(between.take(at + 2).last() == rev_cx);
                                }
                                let ghost gates0 = gates@;
                                if self.is_allowed(cx) {
                                    gates.push(cx);
                                }
                                let ghost gates1 = gates@;
                                if self.is_allowed(rev_cx) {
                                    gates.push(rev_cx);
                                }
                                proof {
                                    let at = 4 * i as int + 2 * j as int;
                                    let moves = self@.moves;
                                    assert(spec_allowed(between.take(at + 1), moves) == if moves.contains(cx) {
                                        gates0.push(cx)
                                    } else {
                                        gates0
                                    });
                                    assert(gates1 == spec_allowed(between.take(at + 1), moves));
                                    assert(spec_allowed(between.take(at + 2), moves) == if moves.contains(rev_cx) {
                                        gates1.push(rev_cx)
                                    } else {
                                        gates1
                                    });
                                }
                                j = j + 1;
                            }
                            i = i + 1;
                        }
                        assert(between.take(8) =~= between);
                    },
                    None => {},
                }
            },
        }
        gates
    }

    /// Adds all children of `ind` to the graph.
    ///
    /// There are two kinds of moves: a CX gate, or a merge. A merge is an
    /// identity operation that combines two circuits into one, provided the
    /// gates in which they differ act on disjoint qubits.
    ///
    ///  - Below the root, any allowed CX is added.
    ///  - Below a CX edge, any allowed CX that shares a qubit with it is added.
    ///  - Below a merge of two nodes that CX edges led to, the allowed gates
    ///    between a qubit of the one and a qubit of the other are added.
    ///
    /// After that, if no child was added and `ind` may be the first node of a
    /// merge, its merges with all nodes that can be merged with it are added.
    ///
    /// The value of `ind` is one that gates can be applied to. A sound graph
    /// stays sound: each merge made gives the value of the gates of its nodes.
    pub fn expand_children(&mut self, ind: usize, target: &V)
        requires
            old(self).wf(),
            ind < old(self)@.len(),
            old(self)@.values[ind as int].spec_valid(),
        ensures
            final(self).wf(),
            final(self)@ == old(self)@.spec_expand(ind as int, *target),
            old(self)@.spec_sound() ==> final(self)@.spec_sound(),
    {
        let gates = self.cx_gates(ind);
        proof {
            self.lemma_wf();
            self@.lemma_cx_gates_ok(ind as int);
            if self@.spec_sound() {
                self@.lemma_expand_sound(ind as int, *target);
            }
        }
        let mut k: usize = 0;
        while k < gates.len()
            invariant
                self.wf(),
                k <= gates@.len(),
                ind < old(self)@.len(),
                old(self)@.wf(),
                old(self)@.values[ind as int].spec_valid(),
                forall|i: int| 0 <= i < gates@.len() ==> GraphModel::<V>::gate_ok(#[trigger] gates@[i]),
                self@ == old(self)@.spec_add_all(ind as int, gates@.take(k as int)),
            decreases gates@.len() - k,
        {
            proof {
                let done = gates@.take(k as int);
                assert forall|i: int| 0 <= i < done.len() implies GraphModel::<V>::gate_ok(#[trigger] done[i]) by {
                    assert(done[i] == gates@[i]);
                }
                old(self)@.lemma_add_all_wf(ind as int, done);
                let next = gates@.take(k as int + 1);
                assert(next.drop_last() =~= done);
                assert(next.last() == gates@[k as int]);
                assert(self@.values[ind as int] == old(self)@.values[ind as int]);
                assert(GraphModel::<V>::gate_ok(gates@[k as int]));
                self@.values[ind as int].lemma_cx_valid(gates@[k as int].ctrl, gates@[k as int].tgt);
            }
            self.add_cx(ind, gates[k]);
            k = k + 1;
        }
        proof {
            assert(gates@.take(gates@.len() as int) =~= gates@);
            old(self)@.lemma_add_all_wf(ind as int, gates@);
        }
        let ghost with_cx = self@;
        if self.is_mergeable(ind, target) {
            let partners = self.find_mergeable_nodes(ind);
            let ghost all = spec_partners(partners@);
            proof {
                with_cx.lemma_candidates(ind as int, with_cx.len() as int);
            }
            let mut k: usize = 0;
            while k < partners.len()
                invariant
                    self.wf(),
                    k <= partners@.len(),
                    with_cx.wf(),
                    ind < with_cx.len(),
                    all == spec_partners(partners@),
                    forall|i: int|
                        0 <= i < all.len() ==> {
                            let c = #[trigger] all[i];
                            &&& c.0 < with_cx.len()
                            &&& forall|q: u8| c.1.contains(q) ==> q < V::qubits()
                        },
                    self@ == with_cx.spec_merge_all(ind as int, all.take(k as int)),
                decreases partners@.len() - k,
            {
                proof {
                    let done = all.take(k as int);
                    assert forall|i: int| 0 <= i < done.len() implies (#[trigger] done[i]).0 < with_cx.len() by {
                        assert(done[i] == all[i]);
                    }
                    with_cx.lemma_merge_all_wf(ind as int, done);
                    let next = all.take(k as int + 1);
                    assert(next.drop_last() =~= done);
                    assert(next.last() == all[k as int]);
                    assert(all[k as int] == (partners@[k as int].0, partners@[k as int].1@));
                }
                let node = partners[k].0;
                let qubits = partners[k].1;
                proof {
                    let c = all[k as int];
                    assert(c.1 == qubits@);
                    assert(c.0 < with_cx.len());
                    assert(forall|q: u8| c.1.contains(q) ==> q < V::qubits());
                }
                self.add_merge(ind, node, &qubits);
                k = k + 1;
            }
            proof {
                assert(all.take(all.len() as int) =~= all);
            }
        }
    }
}

} // verus!
