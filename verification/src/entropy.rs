//! The entropy index: which bucket (candidate count) each cell sits in.
//!
//! Conceptually the index is a family of buckets `0 ..= k`, bucket `n`
//! holding the set of cell coordinates whose candidate set currently has
//! cardinality `n`. It is stored as the inverse map: for each cell the
//! bucket it sits in. That keeps every cell in exactly one bucket by
//! construction.

use vstd::prelude::*;

verus! {

pub struct EntropyIndex {
    pub recorded: Vec<usize>,
}

impl View for EntropyIndex {
    type V = Seq<usize>;

    open spec fn view(&self) -> Seq<usize> {
        self.recorded@
    }
}

impl EntropyIndex {
    /// Cell `c` sits in bucket `n`.
    pub open spec fn in_bucket(self, n: int, c: int) -> bool {
        0 <= c < self@.len() && self@[c] == n
    }

    /// An index over `cells` cells, all placed in the top bucket `k`
    /// (the fully superposed state).
    pub fn new(cells: usize, k: usize) -> (idx: EntropyIndex)
        ensures
            idx@.len() == cells,
            forall|c: int| 0 <= c < cells ==> (#[trigger] idx@[c]) == k,
    {
        let mut recorded: Vec<usize> = Vec::new();
        let mut c: usize = 0;
        while c < cells
            invariant
                c <= cells,
                recorded@.len() == c,
                forall|i: int| 0 <= i < c ==> (#[trigger] recorded@[i]) == k,
            decreases cells - c,
        {
            recorded.push(k);
            c += 1;
        }
        EntropyIndex { recorded }
    }

    /// Move cell `c` from bucket `old_count` to bucket `new_count`.
    pub fn record(&mut self, c: usize, old_count: usize, new_count: usize)
        requires
            c < old(self)@.len(),
            old(self)@[c as int] == old_count,
        ensures
            final(self)@ == old(self)@.update(c as int, new_count),
    {
        self.recorded.set(c, new_count);
    }

    /// The next cell worth collapsing: a cell from the lowest non-empty
    /// bucket of index at least 2 (bucket 0 holds contradictions and
    /// bucket 1 resolved cells; neither is a candidate). Among equals,
    /// the cell with the smallest index is taken. The returned cell is
    /// moved to bucket 1 at once, reserving it against re-selection.
    pub fn pick_lowest_entropy(&mut self) -> (r: Option<usize>)
        ensures
            match r {
                Some(c) => {
                    &&& c < old(self)@.len()
                    &&& old(self)@[c as int] >= 2
                    &&& forall|j: int|
                        0 <= j < old(self)@.len() && (#[trigger] old(self)@[j]) >= 2 ==> old(
                            self,
                        )@[c as int] <= old(self)@[j]
                    &&& forall|j: int|
                        0 <= j < c && (#[trigger] old(self)@[j]) >= 2 ==> old(self)@[c as int]
                            < old(self)@[j]
                    &&& final(self)@ == old(self)@.update(c as int, 1usize)
                },
                None => {
                    &&& forall|j: int| 0 <= j < old(self)@.len() ==> (#[trigger] old(self)@[j]) <= 1
                    &&& *final(self) == *old(self)
                },
            },
    {
        let n = self.recorded.len();
        let mut best: usize = 0;
        let mut found: bool = false;
        let mut j: usize = 0;
        while j < n
            invariant
                j <= n,
                n == self@.len(),
                self == old(self),
                found ==> best < j && self@[best as int] >= 2,
                found ==> forall|i: int|
                    0 <= i < j && (#[trigger] self@[i]) >= 2 ==> self@[best as int] <= self@[i],
                found ==> forall|i: int|
                    0 <= i < best && (#[trigger] self@[i]) >= 2 ==> self@[best as int] < self@[i],
                !found ==> forall|i: int| 0 <= i < j ==> (#[trigger] self@[i]) <= 1,
            decreases n - j,
        {
            let v = self.recorded[j];
            if v >= 2 && (!found || v < self.recorded[best]) {
                best = j;
                found = true;
            }
            j += 1;
        }
        if found {
            self.recorded.set(best, 1);
            Some(best)
        } else {
            None
        }
    }
}

} // verus!
