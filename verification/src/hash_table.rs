//! A table of circuits with one place per hash value: a circuit whose place is
//! taken is not stored.

use vstd::prelude::*;
use crate::cx_circuit::CXCircuit;

verus! {

/// A hash table for circuits, with `N` places.
pub struct HashTable<T, const N: usize> {
    /// The places. With a circuit goes the CX move that led to it from its
    /// parent; the move is (0, 0) if the circuit has no parent.
    table: Vec<Option<(T, (u8, u8))>>,
    /// How often a place was taken by another circuit.
    pub n_collisions: usize,
    /// How many circuits were stored.
    pub n_inserts: usize,
}

/// The place of `circuit` in a table of `n` places.
pub open spec fn spec_slot<T: CXCircuit>(circuit: T, n: int) -> int {
    (circuit.spec_hash() as int) % n
}

/// One more than `count`, held at the largest integer.
pub open spec fn spec_count_up(count: usize) -> usize {
    if count < usize::MAX {
        (count + 1) as usize
    } else {
        count
    }
}

/// The circuits that the places below `n` of both tables hold, in the order of
/// the places.
pub open spec fn spec_common<T>(a: Seq<Option<(T, (u8, u8))>>, b: Seq<Option<(T, (u8, u8))>>, n: int) -> Seq<T>
    decreases n,
{
    if n <= 0 {
        Seq::empty()
    } else {
        let front = spec_common(a, b, n - 1);
        match (a[n - 1], b[n - 1]) {
            (Some(x), Some(y)) => if x.0 == y.0 {
                front.push(x.0)
            } else {
                front
            },
            _ => front,
        }
    }
}

/// How many of the places below `n` are taken.
pub open spec fn spec_taken<T>(table: Seq<Option<(T, (u8, u8))>>, n: int) -> nat
    decreases n,
{
    if n <= 0 {
        0
    } else {
        spec_taken(table, n - 1) + if table[n - 1] is Some {
            1nat
        } else {
            0nat
        }
    }
}

/// No more places are taken than there are, and fewer where one is free.
pub proof fn lemma_taken_bound<T>(table: Seq<Option<(T, (u8, u8))>>, n: int)
    requires
        0 <= n <= table.len(),
    ensures
        spec_taken(table, n) <= n,
        forall|i: int| 0 <= i < n && table[i] is None ==> spec_taken(table, n) < n,
    decreases n,
{
    if n > 0 {
        lemma_taken_bound(table, n - 1);
    }
}

/// Taking a free place adds one to the places taken, if it is among those
/// counted, and nothing if it is not.
pub proof fn lemma_taken_update<T>(table: Seq<Option<(T, (u8, u8))>>, n: int, slot: int, entry: (T, (u8, u8)))
    requires
        0 <= n <= table.len(),
        0 <= slot < table.len(),
        table[slot] is None,
    ensures
        spec_taken(table.update(slot, Some(entry)), n) == spec_taken(table, n) + if slot < n {
            1nat
        } else {
            0nat
        },
    decreases n,
{
    if n > 0 {
        lemma_taken_update(table, n - 1, slot, entry);
    }
}

/// Where every place is free, none is taken.
pub proof fn lemma_none_taken<T>(table: Seq<Option<(T, (u8, u8))>>, n: int)
    requires
        0 <= n <= table.len(),
        forall|i: int| 0 <= i < n ==> table[i] is None,
    ensures
        spec_taken(table, n) == 0,
    decreases n,
{
    if n > 0 {
        lemma_none_taken(table, n - 1);
    }
}

/// Two tables have no more circuits in common than either holds.
pub proof fn lemma_common_bound<T>(a: Seq<Option<(T, (u8, u8))>>, b: Seq<Option<(T, (u8, u8))>>, n: int)
    requires
        0 <= n <= a.len(),
        n <= b.len(),
    ensures
        spec_common(a, b, n).len() <= spec_taken(a, n),
        spec_common(a, b, n).len() <= spec_taken(b, n),
    decreases n,
{
    if n > 0 {
        lemma_common_bound(a, b, n - 1);
    }
}

impl<T: CXCircuit, const N: usize> View for HashTable<T, N> {
    type V = Seq<Option<(T, (u8, u8))>>;

    closed spec fn view(&self) -> Seq<Option<(T, (u8, u8))>> {
        self.table@
    }
}

impl<T: CXCircuit, const N: usize> HashTable<T, N> {
    /// How often a place was taken by another circuit.
    pub closed spec fn spec_collisions(&self) -> usize {
        self.n_collisions
    }

    /// How many circuits were stored.
    pub closed spec fn spec_inserts(&self) -> usize {
        self.n_inserts
    }

    /// The table has `N` places, every circuit is at the place of its hash, and
    /// the circuits stored are counted.
    pub open spec fn wf(&self) -> bool {
        &&& self@.len() == N
        &&& self.spec_inserts() == spec_taken(self@, N as int)
        &&& forall|i: int|
            0 <= i < N ==> (#[trigger] self@[i] matches Some(entry) ==> spec_slot(entry.0, N as int) == i)
    }

    /// How often a place was taken by another circuit: what the field
    /// `n_collisions` holds.
    pub fn collisions(&self) -> (n: usize)
        ensures
            n == self.spec_collisions(),
    {
        self.n_collisions
    }

    /// How many circuits were stored: what the field `n_inserts` holds.
    pub fn inserts(&self) -> (n: usize)
        ensures
            n == self.spec_inserts(),
    {
        self.n_inserts
    }

    /// Creates a new hash table, with every place free.
    pub fn new() -> (t: Self)
        ensures
            t.wf(),
            forall|i: int| 0 <= i < N ==> t@[i] is None,
            t.spec_collisions() == 0,
            t.spec_inserts() == 0,
    {
        let mut table: Vec<Option<(T, (u8, u8))>> = Vec::new();
        let mut i: usize = 0;
        while i < N
            invariant
                i <= N,
                table@.len() == i,
                forall|j: int| 0 <= j < i ==> table@[j] is None,
            decreases N - i,
        {
            table.push(None);
            i = i + 1;
        }
        proof {
            lemma_taken_bound(table@, N as int);
            lemma_none_taken(table@, N as int);
        }
        HashTable { table, n_collisions: 0, n_inserts: 0 }
    }

    /// Inserts a circuit into the hash table.
    ///
    /// Returns `true` if the circuit was stored, `false` if its place was taken:
    /// by the same circuit, or by another one, which counts as a collision.
    pub fn insert(&mut self, circuit: T, move_id: (u8, u8)) -> (stored: bool)
        requires
            old(self).wf(),
            0 < N <= u32::MAX,
        ensures
            final(self).wf(),
            match old(self)@[spec_slot(circuit, N as int)] {
                Some(entry) => {
                    &&& !stored
                    &&& final(self)@ == old(self)@
                    &&& final(self).spec_inserts() == old(self).spec_inserts()
                    &&& final(self).spec_collisions() == if entry.0 != circuit {
                        spec_count_up(old(self).spec_collisions())
                    } else {
                        old(self).spec_collisions()
                    }
                },
                None => {
                    &&& stored
                    &&& final(self)@ == old(self)@.update(spec_slot(circuit, N as int), Some((circuit, move_id)))
                    &&& final(self).spec_inserts() == old(self).spec_inserts() + 1
                    &&& final(self).spec_collisions() == old(self).spec_collisions()
                },
            },
    {
        let slot = (circuit.hash() % (N as u32)) as usize;
        match &self.table[slot] {
            Some(entry) => {
                if !entry.0.same(&circuit) {
                    if self.n_collisions < usize::MAX {
                        self.n_collisions = self.n_collisions + 1;
                    }
                }
                false
            },
            None => {
                proof {
                    lemma_taken_bound(self@, N as int);
                    lemma_taken_update(self@, N as int, slot as int, (circuit, move_id));
                }
                if self.n_inserts < usize::MAX {
                    self.n_inserts = self.n_inserts + 1;
                }
                self.table.set(slot, Some((circuit, move_id)));
                true
            },
        }
    }

    /// The circuits that both tables hold at the same place, in the order of the places.
    pub fn intersection(&self, other: &Self) -> (common: Vec<T>)
        requires
            self.wf(),
            other.wf(),
        ensures
            common@ == spec_common(self@, other@, N as int),
            common@.len() <= self.spec_inserts(),
            common@.len() <= other.spec_inserts(),
    {
        proof {
            lemma_common_bound(self@, other@, N as int);
        }
        let mut common: Vec<T> = Vec::new();
        let mut i: usize = 0;
        while i < N
            invariant
                i <= N,
                self@.len() == N,
                other@.len() == N,
                common@ == spec_common(self@, other@, i as int),
            decreases N - i,
        {
            match (&self.table[i], &other.table[i]) {
                (Some(a), Some(b)) => {
                    if a.0.same(&b.0) {
                        common.push(a.0);
                    }
                },
                _ => {},
            }
            i = i + 1;
        }
        common
    }
}

} // verus!
