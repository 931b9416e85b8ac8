//! Candidate sets: which tile states remain possible at one grid cell.

use vstd::prelude::*;

verus! {

/// Number of `true` entries in a sequence of booleans.
pub open spec fn popcount(s: Seq<bool>) -> nat
    decreases s.len(),
{
    if s.len() == 0 {
        0
    } else {
        popcount(s.drop_last()) + if s.last() {
            1nat
        } else {
            0nat
        }
    }
}

/// Index of the `r`-th `true` entry of `s` in increasing index order,
/// or -1 when fewer than `r + 1` entries are `true`.
pub open spec fn rank_index(s: Seq<bool>, r: nat) -> int
    decreases s.len(),
{
    if s.len() == 0 {
        -1
    } else if s[0] {
        if r == 0 {
            0
        } else {
            let v: int = rank_index(s.drop_first(), (r - 1) as nat);
            if v < 0 {
                -1
            } else {
                v + 1
            }
        }
    } else {
        let v: int = rank_index(s.drop_first(), r);
        if v < 0 {
            -1
        } else {
            v + 1
        }
    }
}

pub proof fn lemma_popcount_le_len(s: Seq<bool>)
    ensures
        popcount(s) <= s.len(),
    decreases s.len(),
{
    if s.len() > 0 {
        lemma_popcount_le_len(s.drop_last());
    }
}

/// Changing one entry changes the count by the difference of the two entries.
pub proof fn lemma_popcount_update(s: Seq<bool>, i: int, b: bool)
    requires
        0 <= i < s.len(),
    ensures
        popcount(s.update(i, b)) + (if s[i] {
            1nat
        } else {
            0nat
        }) == popcount(s) + (if b {
            1nat
        } else {
            0nat
        }),
    decreases s.len(),
{
    let t = s.update(i, b);
    if i == s.len() - 1 {
        assert(t.drop_last() =~= s.drop_last());
    } else {
        assert(t.drop_last() =~= s.drop_last().update(i, b));
        lemma_popcount_update(s.drop_last(), i, b);
        assert(t.last() == s.last());
    }
}

/// A pointwise-smaller sequence never has a larger count.
pub proof fn lemma_popcount_subset(a: Seq<bool>, b: Seq<bool>)
    requires
        a.len() == b.len(),
        forall|i: int| 0 <= i < a.len() && #[trigger] a[i] ==> b[i],
    ensures
        popcount(a) <= popcount(b),
    decreases a.len(),
{
    if a.len() > 0 {
        lemma_popcount_subset(a.drop_last(), b.drop_last());
        assert(a.last() ==> b.last());
    }
}

/// A pointwise-smaller sequence with the same count is the same sequence.
pub proof fn lemma_popcount_subset_eq(a: Seq<bool>, b: Seq<bool>)
    requires
        a.len() == b.len(),
        forall|i: int| 0 <= i < a.len() && #[trigger] a[i] ==> b[i],
        popcount(a) == popcount(b),
    ensures
        a == b,
    decreases a.len(),
{
    if a.len() == 0 {
        assert(a =~= b);
    } else {
        lemma_popcount_subset(a.drop_last(), b.drop_last());
        assert(a.last() ==> b.last());
        if a.last() != b.last() {
            assert(popcount(a) < popcount(b));
            assert(false);
        }
        lemma_popcount_subset_eq(a.drop_last(), b.drop_last());
        assert(a =~= b) by {
            assert(forall|i: int| 0 <= i < a.len() - 1 ==> a[i] == a.drop_last()[i]);
        }
    }
}

/// The count is zero exactly when no entry is `true`.
pub proof fn lemma_popcount_zero(s: Seq<bool>)
    ensures
        (popcount(s) == 0) <==> (forall|i: int| 0 <= i < s.len() ==> !(#[trigger] s[i])),
    decreases s.len(),
{
    if s.len() > 0 {
        lemma_popcount_zero(s.drop_last());
        if popcount(s) == 0 {
            assert(forall|i: int| 0 <= i < s.len() - 1 ==> !(#[trigger] s.drop_last()[i]));
            assert(forall|i: int| 0 <= i < s.len() ==> !(#[trigger] s[i])) by {
                assert(forall|i: int|
                    0 <= i < s.len() - 1 ==> #[trigger] s[i] == s.drop_last()[i]);
                assert(!s.last());
            }
        }
        if forall|i: int| 0 <= i < s.len() ==> !(#[trigger] s[i]) {
            assert(forall|i: int|
                0 <= i < s.len() - 1 ==> !(#[trigger] s.drop_last()[i]));
            assert(!s.last());
        }
    }
}

/// Counting one more entry of a prefix.
pub proof fn lemma_popcount_take_step(s: Seq<bool>, i: int)
    requires
        0 <= i < s.len(),
    ensures
        popcount(s.take(i + 1)) == popcount(s.take(i)) + if s[i] {
            1nat
        } else {
            0nat
        },
{
    assert(s.take(i + 1).drop_last() =~= s.take(i));
    assert(s.take(i + 1).last() == s[i]);
}

/// The count seen from the front.
pub proof fn lemma_popcount_front(s: Seq<bool>)
    requires
        s.len() > 0,
    ensures
        popcount(s) == (if s[0] {
            1nat
        } else {
            0nat
        }) + popcount(s.drop_first()),
    decreases s.len(),
{
    if s.len() == 1 {
        assert(s.drop_first().len() == 0);
        assert(s.drop_last().len() == 0);
        assert(popcount(s.drop_first()) == 0);
        assert(popcount(s.drop_last()) == 0);
        assert(popcount(s) == popcount(s.drop_last()) + if s.last() {
            1nat
        } else {
            0nat
        });
        assert(s.last() == s[0]);
    } else {
        lemma_popcount_front(s.drop_last());
        assert(s.drop_last().drop_first() =~= s.drop_first().drop_last());
        assert(s.drop_first().last() == s.last());
        assert(s.drop_last()[0] == s[0]);
        assert(popcount(s) == popcount(s.drop_last()) + if s.last() {
            1nat
        } else {
            0nat
        });
        assert(popcount(s.drop_first()) == popcount(s.drop_first().drop_last()) + if s.drop_first().last() {
            1nat
        } else {
            0nat
        });
    }
}

/// For a rank below the count, `rank_index` names a `true` entry with
/// exactly that many `true` entries before it.
pub proof fn lemma_rank_index_props(s: Seq<bool>, r: nat)
    requires
        r < popcount(s),
    ensures
        0 <= rank_index(s, r) < s.len(),
        s[rank_index(s, r)],
        popcount(s.take(rank_index(s, r))) == r,
    decreases s.len(),
{
    lemma_popcount_front(s);
    let d = s.drop_first();
    if s[0] {
        if r == 0 {
            assert(s.take(0) =~= Seq::<bool>::empty());
        } else {
            lemma_rank_index_props(d, (r - 1) as nat);
            let v: int = rank_index(d, (r - 1) as nat);
            assert(s.take(v + 1).drop_first() =~= d.take(v));
            lemma_popcount_front(s.take(v + 1));
        }
    } else {
        lemma_rank_index_props(d, r);
        let v: int = rank_index(d, r);
        assert(s.take(v + 1).drop_first() =~= d.take(v));
        lemma_popcount_front(s.take(v + 1));
    }
}

/// A `true` entry is named by the rank that counts the `true` entries
/// before it: ranks determine indices uniquely.
pub proof fn lemma_rank_index_unique(s: Seq<bool>, i: int)
    requires
        0 <= i < s.len(),
        s[i],
    ensures
        rank_index(s, popcount(s.take(i))) == i,
    decreases s.len(),
{
    if i == 0 {
        assert(s.take(0) =~= Seq::<bool>::empty());
    } else {
        let d = s.drop_first();
        lemma_rank_index_unique(d, i - 1);
        assert(s.take(i).drop_first() =~= d.take(i - 1));
        lemma_popcount_front(s.take(i));
        let r = popcount(s.take(i));
        if s[0] {
            assert(r == 1 + popcount(d.take(i - 1)));
            assert(rank_index(d, (r - 1) as nat) == i - 1);
        } else {
            assert(r == popcount(d.take(i - 1)));
        }
    }
}

/// A set of tile identifiers, kept as a membership bitmap over the
/// identifiers `0 .. k` together with its cached cardinality.
pub struct SuperState {
    pub bits: Vec<bool>,
    pub count: usize,
}

impl View for SuperState {
    type V = Seq<bool>;

    open spec fn view(&self) -> Seq<bool> {
        self.bits@
    }
}

impl SuperState {
    /// The cached cardinality agrees with the bitmap.
    pub open spec fn wf(self) -> bool {
        self.count == popcount(self.bits@)
    }

    pub open spec fn spec_contains(self, t: int) -> bool {
        0 <= t < self@.len() && self@[t]
    }

    /// The set holding exactly the identifiers listed in `ids`,
    /// over the identifier space `0 .. k`.
    pub fn from(ids: &Vec<usize>, k: usize) -> (ss: SuperState)
        requires
            forall|i: int| 0 <= i < ids@.len() ==> (#[trigger] ids@[i]) < k,
        ensures
            ss@.len() == k,
            ss.wf(),
            forall|t: int| 0 <= t < k ==> ((#[trigger] ss@[t]) <==> ids@.contains(t as usize)),
    {
        let mut bits: Vec<bool> = Vec::new();
        let mut j: usize = 0;
        while j < k
            invariant
                j <= k,
                bits@.len() == j,
                forall|t: int| 0 <= t < j ==> !(#[trigger] bits@[t]),
            decreases k - j,
        {
            bits.push(false);
            j += 1;
        }
        proof {
            lemma_popcount_zero(bits@);
        }
        let mut count: usize = 0;
        let mut n: usize = 0;
        while n < ids.len()
            invariant
                n <= ids@.len(),
                bits@.len() == k,
                forall|i: int| 0 <= i < ids@.len() ==> (#[trigger] ids@[i]) < k,
                count == popcount(bits@),
                forall|t: int|
                    0 <= t < k ==> ((#[trigger] bits@[t]) <==> ids@.take(n as int).contains(
                        t as usize,
                    )),
            decreases ids@.len() - n,
        {
            let v = ids[n];
            proof {
                assert(ids@.take(n + 1).drop_last() =~= ids@.take(n as int));
                assert(ids@.take(n + 1).last() == ids@[n as int]);
            }
            if !bits[v] {
                proof {
                    lemma_popcount_update(bits@, v as int, true);
                    lemma_popcount_le_len(bits@.update(v as int, true));
                }
                bits.set(v, true);
                count += 1;
            }
            proof {
                assert(forall|t: int|
                    0 <= t < k ==> ((#[trigger] ids@.take(n + 1).contains(t as usize)) <==> (
                    ids@.take(n as int).contains(t as usize) || t == ids@[n as int])));
            }
            n += 1;
        }
        proof {
            assert(ids@.take(ids@.len() as int) =~= ids@);
        }
        SuperState { bits, count }
    }

    /// The full superposition: every identifier below `k` is present.
    pub fn full(k: usize) -> (ss: SuperState)
        ensures
            ss@.len() == k,
            ss.wf(),
            ss.count == k,
            forall|t: int| 0 <= t < k ==> #[trigger] ss@[t],
    {
        let mut bits: Vec<bool> = Vec::new();
        let mut j: usize = 0;
        while j < k
            invariant
                j <= k,
                bits@.len() == j,
                popcount(bits@) == j,
                forall|t: int| 0 <= t < j ==> #[trigger] bits@[t],
            decreases k - j,
        {
            proof {
                assert(bits@.push(true).drop_last() =~= bits@);
            }
            bits.push(true);
            j += 1;
        }
        SuperState { bits, count: k }
    }

    /// Cardinality: how many identifiers remain possible.
    pub fn count(&self) -> (c: usize)
        requires
            self.wf(),
        ensures
            c == popcount(self@),
    {
        self.count
    }

    /// Membership test for one identifier.
    pub fn contains(&self, t: usize) -> (b: bool)
        requires
            t < self@.len(),
        ensures
            b == self@[t as int],
    {
        self.bits[t]
    }

    /// Pointwise intersection with another set over the same space.
    pub fn intersect(&self, other: &SuperState) -> (ss: SuperState)
        requires
            self@.len() == other@.len(),
        ensures
            ss@.len() == self@.len(),
            ss.wf(),
            forall|t: int| 0 <= t < self@.len() ==> #[trigger] ss@[t] == (self@[t] && other@[t]),
    {
        let mut bits: Vec<bool> = Vec::new();
        let mut count: usize = 0;
        let mut j: usize = 0;
        while j < self.bits.len()
            invariant
                j <= self@.len(),
                self@.len() == other@.len(),
                bits@.len() == j,
                count == popcount(bits@),
                forall|t: int| 0 <= t < j ==> #[trigger] bits@[t] == (self@[t] && other@[t]),
            decreases self@.len() - j,
        {
            let b = self.bits[j] && other.bits[j];
            proof {
                assert(bits@.push(b).drop_last() =~= bits@);
                lemma_popcount_le_len(bits@);
            }
            bits.push(b);
            if b {
                count += 1;
            }
            j += 1;
        }
        SuperState { bits, count }
    }

    /// The first remaining identifier; for a resolved (single-candidate)
    /// set this is the resolved value.
    pub fn state(&self) -> (t: usize)
        requires
            self.wf(),
            popcount(self@) >= 1,
        ensures
            t < self@.len(),
            self@[t as int],
            t as int == rank_index(self@, 0),
    {
        let mut j: usize = 0;
        while j < self.bits.len()
            invariant
                j <= self@.len(),
                forall|t: int| 0 <= t < j ==> !(#[trigger] self@[t]),
            decreases self@.len() - j,
        {
            if self.bits[j] {
                proof {
                    lemma_popcount_zero(self@.take(j as int));
                    lemma_rank_index_unique(self@, j as int);
                }
                return j;
            }
            j += 1;
        }
        proof {
            lemma_popcount_zero(self@);
        }
        assert(false);
        unreached()
    }

    /// Reduce the set to the single member whose rank (in increasing
    /// identifier order) is `rank` modulo the current cardinality.
    pub fn collapse(&mut self, rank: usize)
        requires
            old(self).wf(),
            popcount(old(self)@) >= 1,
        ensures
            final(self).wf(),
            final(self)@.len() == old(self)@.len(),
            popcount(final(self)@) == 1,
            final(self).count == 1,
            forall|t: int|
                0 <= t < final(self)@.len() ==> ((#[trigger] final(self)@[t]) <==> t == rank_index(
                    old(self)@,
                    (rank as nat) % popcount(old(self)@),
                )),
    {
        let r = rank % self.count;
        let len = self.bits.len();
        proof {
            assert(self@.take(len as int) =~= self@);
        }
        let mut m: usize = 0;
        let mut seen: usize = 0;
        while m < len
            invariant_except_break
                m <= len,
                len == self@.len(),
                self == old(self),
                self.wf(),
                popcount(self@) >= 1,
                popcount(self@.take(len as int)) == popcount(self@),
                r == (rank as nat) % popcount(self@),
                seen == popcount(self@.take(m as int)),
                seen <= r,
            ensures
                m < len,
                len == self@.len(),
                self == old(self),
                self@[m as int],
                popcount(self@.take(m as int)) == r,
            decreases len - m,
        {
            proof {
                lemma_popcount_take_step(self@, m as int);
            }
            if self.bits[m] {
                if seen == r {
                    break ;
                }
                seen += 1;
            }
            m += 1;
        }
        proof {
            lemma_rank_index_unique(self@, m as int);
        }
        let mut bits: Vec<bool> = Vec::new();
        let mut j: usize = 0;
        while j < len
            invariant
                j <= len,
                m < len,
                bits@.len() == j,
                popcount(bits@) == if j <= m {
                    0nat
                } else {
                    1nat
                },
                forall|t: int| 0 <= t < j ==> ((#[trigger] bits@[t]) <==> t == m),
            decreases len - j,
        {
            let b = j == m;
            proof {
                assert(bits@.push(b).drop_last() =~= bits@);
            }
            bits.push(b);
            j += 1;
        }
        self.bits = bits;
        self.count = 1;
    }

    /// The remaining identifiers, in increasing order.
    pub fn states(&self) -> (r: Vec<usize>)
        ensures
            forall|a: int, b: int| 0 <= a < b < r@.len() ==> r@[a] < r@[b],
            forall|i: int|
                0 <= i < r@.len() ==> (#[trigger] r@[i]) < self@.len() && self@[r@[i] as int],
            forall|t: int| 0 <= t < self@.len() ==> ((#[trigger] self@[t]) <==> r@.contains(
                t as usize,
            )),
    {
        let mut r: Vec<usize> = Vec::new();
        let mut j: usize = 0;
        while j < self.bits.len()
            invariant
                j <= self@.len(),
                forall|a: int, b: int| 0 <= a < b < r@.len() ==> r@[a] < r@[b],
                forall|i: int|
                    0 <= i < r@.len() ==> (#[trigger] r@[i]) < j && self@[r@[i] as int],
                forall|t: int| 0 <= t < j ==> ((#[trigger] self@[t]) <==> r@.contains(t as usize)),
            decreases self@.len() - j,
        {
            if self.bits[j] {
                proof {
                    assert(r@.push(j).drop_last() =~= r@);
                    assert(r@.push(j).last() == j);
                    assert(forall|t: int|
                        0 <= t < self@.len() ==> ((#[trigger] r@.push(j).contains(t as usize))
                            <==> (r@.contains(t as usize) || t == j))) by {
                        assert(forall|t: usize| r@.contains(t) ==> #[trigger] r@.push(j).contains(
                            t,
                        )) by {
                            assert(forall|i: int|
                                0 <= i < r@.len() ==> r@.push(j)[i] == #[trigger] r@[i]);
                        }
                        assert(r@.push(j)[r@.len() as int] == j);
                        assert(r@.push(j).contains(j));
                        assert(forall|t: usize|
                            #[trigger] r@.push(j).contains(t) ==> (r@.contains(t) || t == j)) by {
                            assert(forall|i: int|
                                0 <= i < r@.len() ==> r@.push(j)[i] == #[trigger] r@[i]);
                        }
                    }
                }
                r.push(j);
            } else {
                proof {
                    assert(forall|t: usize| r@.contains(t) ==> t < j);
                }
            }
            j += 1;
        }
        r
    }
}

} // verus!
