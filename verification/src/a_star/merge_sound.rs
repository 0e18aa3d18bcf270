//! Why the merges that an expansion makes are right. In a graph made by
//! expansions, gates that lie in one past and of which neither lies in the
//! past of the other act on different qubits, so the order in which a circuit
//! lists them does not matter. The gates that a node and a partner do not
//! share act on different qubits too: the merged value is the value that the
//! gates of both give.

use vstd::prelude::*;
use crate::a_star::graph::{
    lemma_replay_push, lemma_replay_valid, spec_bump, spec_bump_fits, spec_count, spec_replay, spec_sum,
    spec_sum_fits, AEdge, GraphModel,
};
use crate::a_star::AStarValue;
use crate::cx::CX;
use crate::rows::{spec_add_cx, spec_merge_rows};

verus! {

/// Whether `op` acts on qubit `q`.
pub open spec fn spec_touches(op: CX, q: int) -> bool {
    op.ctrl as int == q || op.tgt as int == q
}

/// Whether the two gates act on different qubits.
pub open spec fn spec_apart_gates(a: CX, b: CX) -> bool {
    a.ctrl != b.ctrl && a.ctrl != b.tgt && a.tgt != b.ctrl && a.tgt != b.tgt
}

/// The count of a qubit after one more gate.
pub proof fn lemma_bump_count(counts: Seq<u16>, ctrl: int, tgt: int, q: int)
    requires
        0 <= ctrl,
        0 <= tgt,
        ctrl != tgt,
        0 <= q,
        spec_bump_fits(counts, ctrl, tgt),
    ensures
        spec_count(spec_bump(counts, ctrl, tgt), q) == spec_count(counts, q) + if q == ctrl || q == tgt {
            1int
        } else {
            0int
        },
{
}

/// The count of a qubit in the sum of two counts.
pub proof fn lemma_sum_count(a: Seq<u16>, b: Seq<u16>, q: int)
    requires
        0 <= q,
        spec_sum_fits(a, b),
    ensures
        spec_count(spec_sum(a, b), q) == spec_count(a, q) + spec_count(b, q),
{
    if q < b.len() {
        assert(spec_count(a, q) + b[q] <= u16::MAX);
    }
}

impl<V: AStarValue> GraphModel<V> {
    /// The past of a node in the past of `x` is in the past of `x`.
    pub proof fn lemma_in_past_trans(self, x: int, y: int, z: int)
        requires
            self.spec_in_past(x, y),
            self.spec_in_past(y, z),
        ensures
            self.spec_in_past(x, z),
        decreases x,
    {
        if y != x {
            match self.nodes[x].prev {
                Some(AEdge::Op { src, .. }) => {
                    self.lemma_in_past_trans(src as int, y, z);
                },
                Some(AEdge::Merge { src1, src2, .. }) => {
                    if src1 < x && self.spec_in_past(src1 as int, y) {
                        self.lemma_in_past_trans(src1 as int, y, z);
                    } else {
                        self.lemma_in_past_trans(src2 as int, y, z);
                    }
                },
                None => {},
            }
        }
    }

    /// The rows after the gates of the CX edges that led to the nodes below `n`
    /// for which `pred` holds, from the rows of the root on.
    pub open spec fn spec_rows_where(self, pred: spec_fn(int) -> bool, n: int) -> Seq<u16>
        decreases n,
    {
        if n <= 0 {
            self.values[0].key()
        } else {
            let front = self.spec_rows_where(pred, n - 1);
            match self.nodes[n - 1].prev {
                Some(AEdge::Op { op, .. }) => if pred(n - 1) {
                    spec_add_cx(front, op.ctrl as int, op.tgt as int)
                } else {
                    front
                },
                _ => front,
            }
        }
    }

    /// These rows are the rows of the value that the gates give.
    pub proof fn lemma_rows_replay(self, pred: spec_fn(int) -> bool, n: int)
        requires
            self.wf(),
            0 <= n <= self.len(),
        ensures
            spec_replay(self.values[0], self.spec_gates_where(pred, n)).key() == self.spec_rows_where(pred, n),
            self.spec_rows_where(pred, n).len() == V::qubits(),
        decreases n,
    {
        let root = self.values[0];
        if n <= 0 {
            root.lemma_key_rows(&root, 0, 0, Set::empty());
        } else {
            self.lemma_rows_replay(pred, n - 1);
            assert(self.node_ok(n - 1));
            match self.nodes[n - 1].prev {
                Some(AEdge::Op { op, .. }) => {
                    if pred(n - 1) {
                        assert(self.prev_ok(n - 1, self.nodes[n - 1].prev->0));
                        let front = self.spec_gates_where(pred, n - 1);
                        lemma_replay_push(root, front, op);
                        spec_replay(root, front).lemma_key_rows(&root, op.ctrl, op.tgt, Set::empty());
                    }
                },
                _ => {},
            }
        }
    }

    /// The counts of a node are no less than those of a node in its past.
    pub proof fn lemma_counts_grow(self, x: int, a: int, q: int)
        requires
            self.wf(),
            0 <= x < self.len(),
            self.spec_in_past(x, a),
            0 <= q,
        ensures
            spec_count(self.nodes[x].counts, q) >= spec_count(self.nodes[a].counts, q),
        decreases x,
    {
        if a != x {
            assert(self.node_ok(x));
            match self.nodes[x].prev {
                Some(AEdge::Op { op, src, .. }) => {
                    assert(self.prev_ok(x, self.nodes[x].prev->0));
                    self.lemma_counts_grow(src as int, a, q);
                    lemma_bump_count(self.nodes[src as int].counts, op.ctrl as int, op.tgt as int, q);
                },
                Some(AEdge::Merge { src1, src2, .. }) => {
                    assert(self.prev_ok(x, self.nodes[x].prev->0));
                    lemma_sum_count(self.nodes[src1 as int].counts, self.nodes[src2 as int].counts, q);
                    if src1 < x && self.spec_in_past(src1 as int, a) {
                        self.lemma_counts_grow(src1 as int, a, q);
                    } else {
                        self.lemma_counts_grow(src2 as int, a, q);
                    }
                },
                None => {},
            }
        }
    }

    /// A gate in the past of a node, on a qubit, is counted.
    pub proof fn lemma_counts_some(self, x: int, e: int, q: int)
        requires
            self.wf(),
            0 <= x < self.len(),
            self.spec_in_past(x, e),
            self.spec_prev_op(e) matches Some(op) && spec_touches(op, q),
        ensures
            spec_count(self.nodes[x].counts, q) >= 1,
        decreases x,
    {
        assert(self.node_ok(x));
        match self.nodes[x].prev {
            Some(AEdge::Op { op, src, .. }) => {
                assert(self.prev_ok(x, self.nodes[x].prev->0));
                lemma_bump_count(self.nodes[src as int].counts, op.ctrl as int, op.tgt as int, q);
                if e != x {
                    self.lemma_counts_some(src as int, e, q);
                }
            },
            Some(AEdge::Merge { src1, src2, .. }) => {
                assert(self.prev_ok(x, self.nodes[x].prev->0));
                lemma_sum_count(self.nodes[src1 as int].counts, self.nodes[src2 as int].counts, q);
                if src1 < x && self.spec_in_past(src1 as int, e) {
                    self.lemma_counts_some(src1 as int, e, q);
                } else {
                    self.lemma_counts_some(src2 as int, e, q);
                }
            },
            None => {},
        }
    }

    /// A gate in the past of a node and not in the past of a node `a` in its
    /// past, on a qubit, is counted beyond the count of `a`.
    pub proof fn lemma_counts_strict(self, x: int, a: int, e: int, q: int)
        requires
            self.wf(),
            0 <= x < self.len(),
            self.spec_in_past(x, a),
            self.spec_in_past(x, e),
            !self.spec_in_past(a, e),
            self.spec_prev_op(e) matches Some(op) && spec_touches(op, q),
        ensures
            spec_count(self.nodes[x].counts, q) > spec_count(self.nodes[a].counts, q),
        decreases x,
    {
        assert(self.node_ok(x));
        assert(self.spec_in_past(a, a));
        match self.nodes[x].prev {
            Some(AEdge::Op { op, src, .. }) => {
                assert(self.prev_ok(x, self.nodes[x].prev->0));
                lemma_bump_count(self.nodes[src as int].counts, op.ctrl as int, op.tgt as int, q);
                if e == x {
                    self.lemma_counts_grow(src as int, a, q);
                } else {
                    self.lemma_counts_strict(src as int, a, e, q);
                }
            },
            Some(AEdge::Merge { src1, src2, .. }) => {
                assert(self.prev_ok(x, self.nodes[x].prev->0));
                lemma_sum_count(self.nodes[src1 as int].counts, self.nodes[src2 as int].counts, q);
                let in1a = src1 < x && self.spec_in_past(src1 as int, a);
                let in1e = src1 < x && self.spec_in_past(src1 as int, e);
                let in2a = src2 < x && self.spec_in_past(src2 as int, a);
                let in2e = src2 < x && self.spec_in_past(src2 as int, e);
                if in1a && in1e {
                    self.lemma_counts_strict(src1 as int, a, e, q);
                } else if in2a && in2e {
                    self.lemma_counts_strict(src2 as int, a, e, q);
                } else if in1a {
                    self.lemma_counts_grow(src1 as int, a, q);
                    self.lemma_counts_some(src2 as int, e, q);
                } else {
                    self.lemma_counts_grow(src2 as int, a, q);
                    self.lemma_counts_some(src1 as int, e, q);
                }
            },
            None => {},
        }
    }
}

impl<V: AStarValue> GraphModel<V> {
    /// Whether the gates of `e` and `f` act on different qubits, where both are
    /// in the past of `x` and neither is in the past of the other.
    pub open spec fn spec_knit_at(self, x: int, e: int, f: int) -> bool {
        (self.spec_in_past(x, e) && self.spec_in_past(x, f) && !self.spec_in_past(e, f) && !self.spec_in_past(f, e)
            && self.spec_prev_op(e) is Some && self.spec_prev_op(f) is Some) ==> spec_apart_gates(
            self.spec_prev_op(e)->0,
            self.spec_prev_op(f)->0,
        )
    }

    /// Whether in every past the gates of which neither is in the past of the
    /// other act on different qubits.
    pub open spec fn spec_knit(self) -> bool {
        forall|x: int, e: int, f: int|
            0 <= x < self.nodes.len() && 0 <= e < self.nodes.len() && 0 <= f < self.nodes.len()
                ==> #[trigger] self.spec_knit_at(x, e, f)
    }

    /// Whether what `e` applies, if it is in the past of `ind` alone, is on none
    /// of the qubits `used`, and if it is in the past of `d` alone, on qubits of
    /// `used` only.
    pub open spec fn spec_parted_at(self, ind: int, d: int, used: Set<u8>, e: int) -> bool {
        self.spec_prev_op(e) matches Some(op) ==> {
            &&& (self.spec_in_past(ind, e) && !self.spec_in_past(d, e) ==> !used.contains(op.ctrl) && !used.contains(
                op.tgt,
            ))
            &&& (self.spec_in_past(d, e) && !self.spec_in_past(ind, e) ==> used.contains(op.ctrl) && used.contains(
                op.tgt,
            ))
        }
    }

    /// Whether the qubits `used` part the gates that `ind` and `d` do not share:
    /// those in the past of `d` alone act on them, those in the past of `ind`
    /// alone do not.
    pub open spec fn spec_parted(self, ind: int, d: int, used: Set<u8>) -> bool {
        forall|e: int| 0 <= e < self.nodes.len() ==> #[trigger] self.spec_parted_at(ind, d, used, e)
    }

    /// Whether what `e` applies is not on qubit `q`, if `e` is in the past of
    /// one of `ind` and `d` alone.
    pub open spec fn spec_clear_at(self, ind: int, d: int, e: int, q: int) -> bool {
        (self.spec_in_past(ind, e) != self.spec_in_past(d, e)) ==> (self.spec_prev_op(e) matches Some(op)
            ==> !spec_touches(op, q))
    }

    /// Whether no gate below `n` that `ind` and `d` do not share is on qubit `q`.
    pub open spec fn spec_untouched(self, ind: int, d: int, n: int, q: int) -> bool {
        forall|e: int| 0 <= e < n ==> #[trigger] self.spec_clear_at(ind, d, e, q)
    }

    /// Whether row `q` of `x` is that of `b` for a qubit of `used` and that of
    /// `a` for another.
    pub open spec fn spec_taken(x: Seq<u16>, a: Seq<u16>, b: Seq<u16>, used: Set<u8>, q: int) -> bool {
        x[q] == if q < 256 && used.contains(q as u8) {
            b[q]
        } else {
            a[q]
        }
    }

    /// Whether row `q` of `a` is that of `b` where no gate below `n` that `ind`
    /// and `d` do not share is on `q`.
    pub open spec fn spec_agree(self, ind: int, d: int, n: int, a: Seq<u16>, b: Seq<u16>, q: int) -> bool {
        self.spec_untouched(ind, d, n, q) ==> a[q] == b[q]
    }

    /// The gates of the nodes below `n`, run for `ind`, for `d` and for both:
    /// the run for both has the rows of the run for `d` on the qubits `used`
    /// and those of the run for `ind` on the others.
    pub proof fn lemma_three_runs(self, ind: int, d: int, used: Set<u8>, n: int)
        requires
            self.wf(),
            self.spec_knit(),
            0 <= ind < self.len(),
            0 <= d < self.len(),
            0 <= n <= self.len(),
            self.spec_parted(ind, d, used),
        ensures
            ({
                let x = self.spec_rows_where(self.spec_past_of_both(ind, d), n);
                let a = self.spec_rows_where(self.spec_past_of(ind), n);
                let b = self.spec_rows_where(self.spec_past_of(d), n);
                &&& x.len() == V::qubits()
                &&& a.len() == V::qubits()
                &&& b.len() == V::qubits()
                &&& forall|q: int| 0 <= q < V::qubits() ==> #[trigger] Self::spec_taken(x, a, b, used, q)
                &&& forall|q: int| 0 <= q < V::qubits() ==> #[trigger] self.spec_agree(ind, d, n, a, b, q)
            }),
        decreases n,
    {
        let both = self.spec_past_of_both(ind, d);
        let pi = self.spec_past_of(ind);
        let pd = self.spec_past_of(d);
        let x = self.spec_rows_where(both, n);
        let a = self.spec_rows_where(pi, n);
        let b = self.spec_rows_where(pd, n);
        self.lemma_rows_replay(both, n);
        self.lemma_rows_replay(pi, n);
        self.lemma_rows_replay(pd, n);
        if n <= 0 {
            assert forall|q: int| 0 <= q < V::qubits() implies #[trigger] Self::spec_taken(x, a, b, used, q) by {}
            assert forall|q: int| 0 <= q < V::qubits() implies #[trigger] self.spec_agree(ind, d, n, a, b, q) by {}
        } else {
            let m = n - 1;
            self.lemma_three_runs(ind, d, used, m);
            let x0 = self.spec_rows_where(both, m);
            let a0 = self.spec_rows_where(pi, m);
            let b0 = self.spec_rows_where(pd, m);
            assert(self.node_ok(m));
            assert(both(m) == (pi(m) || pd(m)));
            assert(pi(m) == self.spec_in_past(ind, m));
            assert(pd(m) == self.spec_in_past(d, m));
            match self.nodes[m].prev {
                Some(AEdge::Op { op, .. }) => {
                    assert(self.prev_ok(m, self.nodes[m].prev->0));
                    assert(self.spec_prev_op(m) == Some(op));
                    assert(self.spec_parted_at(ind, d, used, m));
                    let c = op.ctrl as int;
                    let t = op.tgt as int;
                    assert(Self::spec_taken(x0, a0, b0, used, c));
                    assert(Self::spec_taken(x0, a0, b0, used, t));
                    if pi(m) && pd(m) {
                        self.lemma_shared_untouched(ind, d, m, c);
                        self.lemma_shared_untouched(ind, d, m, t);
                        assert(self.spec_agree(ind, d, m, a0, b0, c));
                        assert(self.spec_agree(ind, d, m, a0, b0, t));
                    }
                    assert forall|q: int| 0 <= q < V::qubits() implies #[trigger] Self::spec_taken(x, a, b, used, q) by {
                        assert(Self::spec_taken(x0, a0, b0, used, q));
                    }
                    assert forall|q: int| 0 <= q < V::qubits() implies #[trigger] self.spec_agree(
                        ind,
                        d,
                        n,
                        a,
                        b,
                        q,
                    ) by {
                        if self.spec_untouched(ind, d, n, q) {
                            assert(self.spec_clear_at(ind, d, m, q));
                            assert forall|e: int| 0 <= e < m implies #[trigger] self.spec_clear_at(ind, d, e, q) by {
                                assert(self.spec_clear_at(ind, d, e, q));
                            }
                            assert(self.spec_agree(ind, d, m, a0, b0, q));
                        }
                    }
                },
                _ => {
                    assert forall|q: int| 0 <= q < V::qubits() implies #[trigger] Self::spec_taken(x, a, b, used, q) by {
                        assert(Self::spec_taken(x0, a0, b0, used, q));
                    }
                    assert forall|q: int| 0 <= q < V::qubits() implies #[trigger] self.spec_agree(
                        ind,
                        d,
                        n,
                        a,
                        b,
                        q,
                    ) by {
                        if self.spec_untouched(ind, d, n, q) {
                            assert forall|e: int| 0 <= e < m implies #[trigger] self.spec_clear_at(ind, d, e, q) by {
                                assert(self.spec_clear_at(ind, d, e, q));
                            }
                            assert(self.spec_agree(ind, d, m, a0, b0, q));
                        }
                    }
                },
            }
        }
    }

    /// No gate below a node that `ind` and `d` share, and that they do not
    /// share, is on a qubit of what that node applies.
    pub proof fn lemma_shared_untouched(self, ind: int, d: int, m: int, q: int)
        requires
            self.wf(),
            self.spec_knit(),
            0 <= ind < self.len(),
            0 <= d < self.len(),
            0 <= m < self.len(),
            self.spec_in_past(ind, m),
            self.spec_in_past(d, m),
            self.spec_prev_op(m) matches Some(op) && spec_touches(op, q),
        ensures
            self.spec_untouched(ind, d, m, q),
    {
        assert forall|e: int| 0 <= e < m implies #[trigger] self.spec_clear_at(ind, d, e, q) by {
            if self.spec_in_past(ind, e) != self.spec_in_past(d, e) && self.spec_prev_op(e) is Some {
                if self.spec_in_past(e, m) {
                    self.lemma_in_past_below(e, m);
                }
                if self.spec_in_past(m, e) {
                    self.lemma_in_past_trans(ind, m, e);
                    self.lemma_in_past_trans(d, m, e);
                }
                if self.spec_in_past(ind, e) {
                    assert(self.spec_knit_at(ind, e, m));
                } else {
                    assert(self.spec_knit_at(d, e, m));
                }
            }
        }
    }

    /// Where the qubits `used` part the gates that `ind` and `d` do not share,
    /// the merged value is the value that the gates in the past of the two
    /// give.
    pub proof fn lemma_parted_replays(self, ind: int, d: int, used: Set<u8>)
        requires
            self.wf(),
            self.replays(),
            self.spec_knit(),
            0 <= ind < self.len(),
            0 <= d < self.len(),
            self.spec_parted(ind, d, used),
        ensures
            spec_replay(self.values[0], self.spec_union_path(ind, d)) == self.values[ind].spec_merge(
                &self.values[d],
                used,
            ),
    {
        let n = self.nodes.len() as int;
        let both = self.spec_past_of_both(ind, d);
        let pi = self.spec_past_of(ind);
        let pd = self.spec_past_of(d);
        self.lemma_three_runs(ind, d, used, n);
        self.lemma_rows_replay(both, n);
        self.lemma_rows_replay(pi, n);
        self.lemma_rows_replay(pd, n);
        assert forall|i: int| ind + 1 <= i < n implies !#[trigger] pi(i) by {
            if self.spec_in_past(ind, i) {
                self.lemma_in_past_below(ind, i);
            }
        }
        assert forall|i: int| d + 1 <= i < n implies !#[trigger] pd(i) by {
            if self.spec_in_past(d, i) {
                self.lemma_in_past_below(d, i);
            }
        }
        self.lemma_gates_above(pi, ind + 1, n);
        self.lemma_gates_above(pd, d + 1, n);
        assert(spec_replay(self.values[0], self.spec_path(ind)) == self.values[ind]);
        assert(spec_replay(self.values[0], self.spec_path(d)) == self.values[d]);
        let x = self.spec_rows_where(both, n);
        let a = self.values[ind].key();
        let b = self.values[d].key();
        let merged = self.values[ind].spec_merge(&self.values[d], used);
        self.values[ind].lemma_key_rows(&self.values[d], 0, 0, used);
        assert forall|q: int| 0 <= q < x.len() implies x[q] == spec_merge_rows(a, b, used)[q] by {
            assert(Self::spec_taken(x, a, b, used, q));
        }
        assert(x =~= spec_merge_rows(a, b, used));
        spec_replay(self.values[0], self.spec_union_path(ind, d)).lemma_key_injective(&merged);
    }
}

impl<V: AStarValue> GraphModel<V> {
    /// Whether the sources of the edge that led to node `i` have an edge.
    pub open spec fn spec_fed_at(self, i: int) -> bool {
        match self.nodes[i].prev {
            Some(AEdge::Op { src, .. }) => self.nodes[src as int].next.len() > 0,
            Some(AEdge::Merge { src1, src2, .. }) => self.nodes[src1 as int].next.len() > 0 && self.nodes[
                src2 as int
            ].next.len() > 0,
            None => true,
        }
    }

    /// Whether every node that is the source of an edge has an edge.
    pub open spec fn spec_fed(self) -> bool {
        forall|i: int| 0 <= i < self.nodes.len() ==> #[trigger] self.spec_fed_at(i)
    }

    /// The qubits forbidden on the way to `d` hold those of every gate in the
    /// past of `ind` that is not in the past of `d`.
    pub proof fn lemma_dis_holds(self, ind: int, d: int, e: int)
        requires
            self.wf(),
            0 <= ind < self.len(),
            0 <= d < self.len(),
            self.spec_dis(ind, d) is Some,
            self.spec_in_past(ind, e),
            !self.spec_in_past(d, e),
            self.spec_prev_op(e) is Some,
        ensures
            self.spec_dis(ind, d)->0.contains(self.spec_prev_op(e)->0.ctrl),
            self.spec_dis(ind, d)->0.contains(self.spec_prev_op(e)->0.tgt),
        decreases d,
    {
        let op = self.spec_prev_op(e)->0;
        if self.spec_in_past(ind, d) {
            self.lemma_counts_strict(ind, d, e, op.ctrl as int);
            self.lemma_counts_strict(ind, d, e, op.tgt as int);
        } else {
            assert(self.node_ok(d));
            match self.nodes[d].prev {
                Some(AEdge::Op { src, .. }) => {
                    assert(self.prev_ok(d, self.nodes[d].prev->0));
                    self.lemma_dis_holds(ind, src as int, e);
                },
                Some(AEdge::Merge { src1, src2, .. }) => {
                    assert(self.prev_ok(d, self.nodes[d].prev->0));
                    self.lemma_dis_holds(ind, src1 as int, e);
                    self.lemma_dis_holds(ind, src2 as int, e);
                },
                None => {},
            }
        }
    }

    /// The qubits that a merge with `ind` takes from `d` hold those of every
    /// gate in the past of `d` that is not in the past of `ind`.
    pub proof fn lemma_used_holds(self, ind: int, d: int, f: int)
        requires
            self.wf(),
            self.spec_fed(),
            0 <= d < self.len(),
            !self.spec_in_past(ind, d),
            self.spec_dis(ind, d) is Some,
            self.spec_in_past(d, f),
            !self.spec_in_past(ind, f),
            self.spec_prev_op(f) is Some,
        ensures
            self.spec_used(ind, d).contains(self.spec_prev_op(f)->0.ctrl),
            self.spec_used(ind, d).contains(self.spec_prev_op(f)->0.tgt),
        decreases d,
    {
        assert(self.node_ok(d));
        assert(self.spec_fed_at(d));
        match self.nodes[d].prev {
            Some(AEdge::Op { op, src, .. }) => {
                assert(self.prev_ok(d, self.nodes[d].prev->0));
                if f != d {
                    if self.spec_in_past(ind, src as int) {
                        self.lemma_in_past_trans(ind, src as int, f);
                    }
                    assert(self.spec_candidate(ind, src as int));
                    self.lemma_used_holds(ind, src as int, f);
                }
            },
            Some(AEdge::Merge { src1, src2, .. }) => {
                assert(self.prev_ok(d, self.nodes[d].prev->0));
                if src1 < d && self.spec_in_past(src1 as int, f) {
                    if self.spec_in_past(ind, src1 as int) {
                        self.lemma_in_past_trans(ind, src1 as int, f);
                    }
                    assert(self.spec_candidate(ind, src1 as int));
                    self.lemma_used_holds(ind, src1 as int, f);
                } else {
                    if self.spec_in_past(ind, src2 as int) {
                        self.lemma_in_past_trans(ind, src2 as int, f);
                    }
                    assert(self.spec_candidate(ind, src2 as int));
                    self.lemma_used_holds(ind, src2 as int, f);
                }
            },
            None => {},
        }
    }

    /// The qubits that a merge takes from a partner part the gates that the
    /// node and the partner do not share.
    pub proof fn lemma_candidate_parted(self, ind: int, d: int)
        requires
            self.wf(),
            self.spec_fed(),
            0 <= ind < self.len(),
            0 <= d < self.len(),
            self.spec_candidate(ind, d),
        ensures
            self.spec_parted(ind, d, self.spec_used(ind, d)),
    {
        let used = self.spec_used(ind, d);
        self.lemma_used_disjoint(ind, d);
        assert forall|e: int| 0 <= e < self.nodes.len() implies #[trigger] self.spec_parted_at(ind, d, used, e) by {
            if self.spec_prev_op(e) is Some {
                let op = self.spec_prev_op(e)->0;
                if self.spec_in_past(ind, e) && !self.spec_in_past(d, e) {
                    self.lemma_dis_holds(ind, d, e);
                    assert(!used.contains(op.ctrl));
                    assert(!used.contains(op.tgt));
                }
                if self.spec_in_past(d, e) && !self.spec_in_past(ind, e) {
                    self.lemma_used_holds(ind, d, e);
                }
            }
        }
    }

    /// What holds of a graph made by expansions, beside its invariant: the
    /// circuit of every node gives its value, gates in one past of which neither
    /// is in the past of the other act on different qubits, every source of an
    /// edge has an edge, and the root holds a valid value.
    pub open spec fn spec_sound(self) -> bool {
        &&& self.replays()
        &&& self.spec_knit()
        &&& self.spec_fed()
        &&& self.values[0].spec_valid()
    }

    /// The graph of the root alone is sound.
    pub proof fn lemma_new_sound(start: V, moves: Seq<CX>)
        requires
            start.spec_valid(),
        ensures
            Self::spec_new(start, moves).spec_sound(),
    {
        let g = Self::spec_new(start, moves);
        g.lemma_path_root();
        assert forall|x: int, e: int, f: int|
            0 <= x < g.nodes.len() && 0 <= e < g.nodes.len() && 0 <= f < g.nodes.len() implies #[trigger] g.spec_knit_at(
            x,
            e,
            f,
        ) by {}
        assert forall|i: int| 0 <= i < g.nodes.len() implies #[trigger] g.spec_fed_at(i) by {}
    }

    /// In a sound graph every node holds a valid value.
    pub proof fn lemma_sound_valid(self, i: int)
        requires
            self.wf(),
            self.spec_sound(),
            0 <= i < self.len(),
        ensures
            self.values[i].spec_valid(),
    {
        self.lemma_gates_ok(self.spec_past_of(i), i + 1);
        lemma_replay_valid(self.values[0], self.spec_path(i));
        assert(spec_replay(self.values[0], self.spec_path(i)) == self.values[i]);
    }

    /// The past of a node, and the gates, are those of a graph that this graph extends.
    pub proof fn lemma_past_kept(self, before: GraphModel<V>, x: int, e: int)
        requires
            self.extends(before),
            before.wf(),
            0 <= x < before.len(),
        ensures
            self.spec_in_past(x, e) == before.spec_in_past(x, e),
            0 <= e < before.len() ==> self.spec_prev_op(e) == before.spec_prev_op(e),
    {
        self.lemma_in_past_frame(before, x, e);
        if 0 <= e < before.len() {
            assert(self.nodes[e].prev == before.nodes[e].prev);
        }
    }

    /// Adding a CX keeps a sound graph sound.
    pub proof fn lemma_add_cx_sound(self, node: int, gate: CX)
        requires
            self.wf(),
            self.spec_sound(),
            0 <= node < self.len(),
            Self::gate_ok(gate),
        ensures
            self.spec_add_cx(node, gate).spec_sound(),
    {
        let after = self.spec_add_cx(node, gate);
        if self.can_add_cx(node, gate) {
            self.lemma_add_cx_wf(node, gate);
            self.lemma_add_cx_replays(node, gate);
            let n = self.nodes.len() as int;
            assert(after.nodes[n].prev == Some(AEdge::Op { op: gate, src: node as usize, dst: n as usize }));
            assert forall|i: int| 0 <= i < after.nodes.len() implies #[trigger] after.spec_fed_at(i) by {
                if i < n {
                    assert(self.spec_fed_at(i));
                    assert(self.node_ok(i));
                    assert(after.nodes[i].prev == self.nodes[i].prev);
                    if i > 0 {
                        assert(self.prev_ok(i, self.nodes[i].prev->0));
                    }
                }
            }
            assert forall|x: int, e: int, f: int|
                0 <= x < after.nodes.len() && 0 <= e < after.nodes.len() && 0 <= f < after.nodes.len() implies #[trigger] after.spec_knit_at(
                x,
                e,
                f,
            ) by {
                if after.spec_in_past(x, e) && after.spec_in_past(x, f) && !after.spec_in_past(e, f)
                    && !after.spec_in_past(f, e) {
                    let y = if x < n { x } else { node };
                    if e < n && f < n {
                        after.lemma_past_kept(self, y, e);
                        after.lemma_past_kept(self, y, f);
                        after.lemma_past_kept(self, e, f);
                        after.lemma_past_kept(self, f, e);
                        assert(self.spec_knit_at(y, e, f));
                    } else {
                        after.lemma_in_past_below(x, e);
                        after.lemma_in_past_below(x, f);
                    }
                }
            }
        }
    }

    /// Adding a merge keeps a sound graph sound, where the qubits taken part the
    /// gates that the two nodes do not share.
    pub proof fn lemma_add_merge_sound(self, src1: int, src2: int, used: Set<u8>)
        requires
            self.wf(),
            self.spec_sound(),
            0 <= src1 < self.len(),
            0 <= src2 < self.len(),
            self.spec_parted(src1, src2, used),
        ensures
            self.spec_add_merge(src1, src2, used).spec_sound(),
    {
        let after = self.spec_add_merge(src1, src2, used);
        if self.can_add_merge(src1, src2, used) {
            self.lemma_add_merge_wf(src1, src2, used);
            self.lemma_parted_replays(src1, src2, used);
            self.lemma_add_merge_replays(src1, src2, used);
            let n = self.nodes.len() as int;
            assert(after.nodes[n].prev == Some(
                AEdge::Merge { src1: src1 as usize, src2: src2 as usize, dst: n as usize },
            ));
            assert forall|i: int| 0 <= i < after.nodes.len() implies #[trigger] after.spec_fed_at(i) by {
                if i < n {
                    assert(self.spec_fed_at(i));
                    assert(self.node_ok(i));
                    assert(after.nodes[i].prev == self.nodes[i].prev);
                    if i > 0 {
                        assert(self.prev_ok(i, self.nodes[i].prev->0));
                    }
                }
            }
            assert forall|x: int, e: int, f: int|
                0 <= x < after.nodes.len() && 0 <= e < after.nodes.len() && 0 <= f < after.nodes.len() implies #[trigger] after.spec_knit_at(
                x,
                e,
                f,
            ) by {
                if after.spec_in_past(x, e) && after.spec_in_past(x, f) && !after.spec_in_past(e, f)
                    && !after.spec_in_past(f, e) && after.spec_prev_op(e) is Some && after.spec_prev_op(f) is Some {
                    after.lemma_in_past_below(x, e);
                    after.lemma_in_past_below(x, f);
                    assert(e < n && f < n);
                    after.lemma_past_kept(self, e, f);
                    after.lemma_past_kept(self, f, e);
                    if x < n {
                        after.lemma_past_kept(self, x, e);
                        after.lemma_past_kept(self, x, f);
                        assert(self.spec_knit_at(x, e, f));
                    } else {
                        after.lemma_past_kept(self, src1, e);
                        after.lemma_past_kept(self, src1, f);
                        after.lemma_past_kept(self, src2, e);
                        after.lemma_past_kept(self, src2, f);
                        assert(self.spec_knit_at(src1, e, f));
                        assert(self.spec_knit_at(src2, e, f));
                        assert(self.spec_parted_at(src1, src2, used, e));
                        assert(self.spec_parted_at(src1, src2, used, f));
                    }
                }
            }
        }
    }

    /// The qubits that part two nodes part them in a graph that extends this graph.
    pub proof fn lemma_parted_kept(self, before: GraphModel<V>, ind: int, d: int, used: Set<u8>)
        requires
            self.extends(before),
            before.wf(),
            0 <= ind < before.len(),
            0 <= d < before.len(),
            before.spec_parted(ind, d, used),
        ensures
            self.spec_parted(ind, d, used),
    {
        assert forall|e: int| 0 <= e < self.nodes.len() implies #[trigger] self.spec_parted_at(ind, d, used, e) by {
            self.lemma_past_kept(before, ind, e);
            self.lemma_past_kept(before, d, e);
            if e < before.len() {
                assert(before.spec_parted_at(ind, d, used, e));
            } else {
                if self.spec_in_past(ind, e) {
                    self.lemma_in_past_below(ind, e);
                }
                if self.spec_in_past(d, e) {
                    self.lemma_in_past_below(d, e);
                }
            }
        }
    }
}

impl<V: AStarValue> GraphModel<V> {
    /// In a graph made by expansions, the gates that the two sources of a merge
    /// do not share act on different qubits.
    pub proof fn lemma_merge_sources_apart(self, m: int, e: int, f: int)
        requires
            self.wf(),
            self.spec_knit(),
            0 <= m < self.len(),
            0 <= e,
            0 <= f,
            self.nodes[m].prev matches Some(AEdge::Merge { src1, src2, .. }) && self.spec_in_past(src1 as int, e)
                && !self.spec_in_past(src2 as int, e) && self.spec_in_past(src2 as int, f) && !self.spec_in_past(
                src1 as int,
                f,
            ),
            self.spec_prev_op(e) is Some,
            self.spec_prev_op(f) is Some,
        ensures
            spec_apart_gates(self.spec_prev_op(e)->0, self.spec_prev_op(f)->0),
    {
        assert(self.node_ok(m));
        assert(self.prev_ok(m, self.nodes[m].prev->0));
        match self.nodes[m].prev {
            Some(AEdge::Merge { src1, src2, .. }) => {
                self.lemma_in_past_below(src1 as int, e);
                self.lemma_in_past_below(src2 as int, f);
                if self.spec_in_past(e, f) {
                    self.lemma_in_past_trans(src1 as int, e, f);
                }
                if self.spec_in_past(f, e) {
                    self.lemma_in_past_trans(src2 as int, f, e);
                }
                assert(self.spec_knit_at(m, e, f));
            },
            _ => {},
        }
    }
}

} // verus!
