//! The circuits of one layer of a breadth-first search, each with the move that
//! led to it, found again by their hash.

use vstd::prelude::*;
use std::collections::HashMap;
use crate::cx_circuit::CXCircuit;

verus! {

broadcast use vstd::std_specs::hash::group_hash_axioms;

/// Whether some entry of `entries` has the circuit `c`.
pub open spec fn spec_has<T>(entries: Seq<(T, usize)>, c: T) -> bool {
    exists|i: int| 0 <= i < entries.len() && (#[trigger] entries[i]).0 == c
}

/// The position of an entry with the circuit `c`.
pub open spec fn spec_position<T>(entries: Seq<(T, usize)>, c: T) -> int {
    choose|i: int| 0 <= i < entries.len() && (#[trigger] entries[i]).0 == c
}

/// The move that goes with the circuit `c`, if an entry has it.
pub open spec fn spec_get<T>(entries: Seq<(T, usize)>, c: T) -> Option<usize> {
    if spec_has(entries, c) {
        Some(entries[spec_position(entries, c)].1)
    } else {
        None
    }
}

/// The entries after `c` was put with the move `m`: where an entry has `c`, it
/// gets the move `m`; else the pair goes to the end.
pub open spec fn spec_put<T>(entries: Seq<(T, usize)>, c: T, m: usize) -> Seq<(T, usize)> {
    if spec_has(entries, c) {
        entries.update(spec_position(entries, c), (c, m))
    } else {
        entries.push((c, m))
    }
}

/// Whether no two entries have the same circuit.
pub open spec fn spec_distinct<T>(entries: Seq<(T, usize)>) -> bool {
    forall|i: int, j: int| 0 <= i < j < entries.len() ==> (#[trigger] entries[i]).0 != (#[trigger] entries[j]).0
}

/// Putting a circuit keeps the circuits distinct.
pub proof fn lemma_put_distinct<T>(entries: Seq<(T, usize)>, c: T, m: usize)
    requires
        spec_distinct(entries),
    ensures
        spec_distinct(spec_put(entries, c, m)),
        spec_has(spec_put(entries, c, m), c),
        forall|x: T| spec_has(entries, x) ==> spec_has(spec_put(entries, c, m), x),
        forall|x: T| x != c && spec_has(spec_put(entries, c, m), x) ==> spec_has(entries, x),
{
    let after = spec_put(entries, c, m);
    if spec_has(entries, c) {
        let p = spec_position(entries, c);
        assert(after[p].0 == c);
        assert forall|x: T| spec_has(entries, x) implies spec_has(after, x) by {
            let i = choose|i: int| 0 <= i < entries.len() && (#[trigger] entries[i]).0 == x;
            assert(after[i].0 == x);
        }
        assert forall|x: T| x != c && spec_has(after, x) implies spec_has(entries, x) by {
            let i = choose|i: int| 0 <= i < after.len() && (#[trigger] after[i]).0 == x;
            assert(entries[i].0 == x);
        }
        assert forall|i: int, j: int| 0 <= i < j < after.len() implies (#[trigger] after[i]).0 != (
        #[trigger] after[j]).0 by {
            assert(after[i].0 == entries[i].0);
            assert(after[j].0 == entries[j].0);
        }
    } else {
        assert(after[entries.len() as int].0 == c);
        assert forall|x: T| spec_has(entries, x) implies spec_has(after, x) by {
            let i = choose|i: int| 0 <= i < entries.len() && (#[trigger] entries[i]).0 == x;
            assert(after[i].0 == x);
        }
        assert forall|x: T| x != c && spec_has(after, x) implies spec_has(entries, x) by {
            let i = choose|i: int| 0 <= i < after.len() && (#[trigger] after[i]).0 == x;
            assert(entries[i].0 == x);
        }
        assert forall|i: int, j: int| 0 <= i < j < after.len() implies (#[trigger] after[i]).0 != (
        #[trigger] after[j]).0 by {
            if j == entries.len() {
                assert(entries[i].0 != c);
            } else {
                assert(after[i].0 == entries[i].0);
                assert(after[j].0 == entries[j].0);
            }
        }
    }
}

/// A map from circuits to the moves that led to them. The circuits are kept in
/// the order in which they first came.
pub struct CircMoves<T> {
    /// The circuits, each with its move.
    entries: Vec<(T, usize)>,
    /// For each hash, the positions of the circuits that have it.
    index: HashMap<u32, Vec<usize>>,
}

impl<T: CXCircuit> View for CircMoves<T> {
    type V = Seq<(T, usize)>;

    closed spec fn view(&self) -> Seq<(T, usize)> {
        self.entries@
    }
}

impl<T: CXCircuit> CircMoves<T> {
    /// No circuit occurs twice, and the index finds every circuit.
    pub closed spec fn wf(&self) -> bool {
        &&& spec_distinct(self.entries@)
        &&& forall|i: int|
            0 <= i < self.entries@.len() ==> {
                let h = (#[trigger] self.entries@[i]).0.spec_hash();
                self.index@.contains_key(h) && self.index@[h]@.contains(i as usize)
            }
        &&& forall|h: u32, k: int|
            self.index@.contains_key(h) && 0 <= k < self.index@[h]@.len() ==> (#[trigger] self.index@[h]@[k])
                < self.entries@.len()
    }

    /// In a well-formed map no circuit occurs twice.
    pub proof fn lemma_wf(&self)
        requires
            self.wf(),
        ensures
            spec_distinct(self@),
    {
    }

    /// A map without circuits.
    pub fn new() -> (m: Self)
        ensures
            m.wf(),
            m@.len() == 0,
    {
        CircMoves { entries: Vec::new(), index: HashMap::new() }
    }

    /// The number of circuits.
    pub fn len(&self) -> (n: usize)
        ensures
            n == self@.len(),
    {
        self.entries.len()
    }

    /// The circuit at position `i`, and its move.
    pub fn entry(&self, i: usize) -> (e: (T, usize))
        requires
            i < self@.len(),
        ensures
            e == self@[i as int],
    {
        self.entries[i]
    }

    /// The position of the circuit `c`, if the map has it.
    pub fn find(&self, c: &T) -> (r: Option<usize>)
        requires
            self.wf(),
        ensures
            r matches Some(p) ==> p < self@.len() && self@[p as int].0 == *c && p == spec_position(self@, *c),
            r is Some == spec_has(self@, *c),
    {
        let h = c.hash();
        let n = self.entries.len();
        match self.index.get(&h) {
            None => {
                proof {
                    if spec_has(self@, *c) {
                        let i = spec_position(self@, *c);
                        assert(self.entries@[i].0.spec_hash() == h);
                        assert(self.index@.contains_key(h));
                    }
                    assert(!spec_has(self@, *c));
                }
                None
            },
            Some(bucket) => {
                let mut k: usize = 0;
                while k < bucket.len()
                    invariant
                        self.wf(),
                        k <= bucket@.len(),
                        self.index@.contains_key(h),
                        bucket@ == self.index@[h]@,
                        h == c.spec_hash(),
                        forall|j: int| 0 <= j < k ==> self.entries@[bucket@[j] as int].0 != *c,
                    decreases bucket@.len() - k,
                {
                    let p = bucket[k];
                    assert(p < self.entries@.len());
                    if self.entries[p].0.same(c) {
                        proof {
                            let q = spec_position(self@, *c);
                            assert(self@[p as int].0 == *c);
                            if q < p {
                                assert(self.entries@[q].0 != self.entries@[p as int].0);
                            }
                            if p < q {
                                assert(self.entries@[p as int].0 != self.entries@[q].0);
                            }
                            assert(spec_has(self@, *c));
                        }
                        return Some(p);
                    }
                    k = k + 1;
                }
                proof {
                    if spec_has(self@, *c) {
                        let i = spec_position(self@, *c);
                        assert(self.entries@[i].0.spec_hash() == h);
                        assert(self.index@[h]@.contains(i as usize));
                        assert(bucket@.contains(i as usize));
                        let j = choose|j: int| 0 <= j < bucket@.len() && bucket@[j] == i as usize;
                        assert(self.entries@[bucket@[j] as int].0 != *c);
                        assert(self.entries@.len() <= usize::MAX);
                        assert(bucket@[j] as int == i);
                    }
                    assert(!spec_has(self@, *c));
                }
                None
            },
        }
    }

    /// Whether the map has the circuit `c`.
    pub fn contains_key(&self, c: &T) -> (b: bool)
        requires
            self.wf(),
        ensures
            b == spec_has(self@, *c),
    {
        self.find(c).is_some()
    }

    /// The move that goes with the circuit `c`, if the map has it.
    pub fn get(&self, c: &T) -> (m: Option<usize>)
        requires
            self.wf(),
        ensures
            m == spec_get(self@, *c),
    {
        match self.find(c) {
            Some(p) => Some(self.entries[p].1),
            None => None,
        }
    }

    /// Puts the circuit `c` with the move `m`: a circuit that the map has keeps
    /// its place and gets the move `m`; a new circuit goes to the end.
    pub fn insert(&mut self, c: T, m: usize)
        requires
            old(self).wf(),
        ensures
            final(self).wf(),
            final(self)@ == spec_put(old(self)@, c, m),
    {
        proof {
            lemma_put_distinct(self@, c, m);
        }
        match self.find(&c) {
            Some(p) => {
                self.entries.set(p, (c, m));
                proof {
                    assert forall|i: int| 0 <= i < self.entries@.len() implies {
                        let h = (#[trigger] self.entries@[i]).0.spec_hash();
                        self.index@.contains_key(h) && self.index@[h]@.contains(i as usize)
                    } by {
                        assert(self.entries@[i].0 == old(self).entries@[i].0);
                    }
                }
            },
            None => {
                let p = self.entries.len();
                let h = c.hash();
                self.entries.push((c, m));
                let mut bucket = match self.index.remove(&h) {
                    Some(bucket) => bucket,
                    None => Vec::new(),
                };
                let ghost before = bucket@;
                bucket.push(p);
                self.index.insert(h, bucket);
                proof {
                    assert forall|i: int| 0 <= i < self.entries@.len() implies {
                        let hi = (#[trigger] self.entries@[i]).0.spec_hash();
                        self.index@.contains_key(hi) && self.index@[hi]@.contains(i as usize)
                    } by {
                        let hi = self.entries@[i].0.spec_hash();
                        if i < p {
                            assert(self.entries@[i] == old(self).entries@[i]);
                            assert(old(self).index@[hi]@.contains(i as usize));
                            if hi == h {
                                let j = choose|j: int| 0 <= j < before.len() && before[j] == i as usize;
                                assert(bucket@[j] == i as usize);
                            }
                        } else {
                            assert(bucket@[before.len() as int] == p);
                        }
                    }
                    assert forall|g: u32, k: int|
                        self.index@.contains_key(g) && 0 <= k < self.index@[g]@.len() implies (
                    #[trigger] self.index@[g]@[k]) < self.entries@.len() by {
                        if g == h {
                            if k < before.len() {
                                assert(bucket@[k] == before[k]);
                                assert(old(self).index@[h]@[k] < p);
                            }
                        } else {
                            assert(old(self).index@[g]@[k] < p);
                        }
                    }
                }
            },
        }
    }
}

} // verus!
