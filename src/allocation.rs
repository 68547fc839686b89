//! The allocation state: which videos each cache stores, and how much of its
//! capacity they use.

use vstd::prelude::*;
use crate::model::DemandModel;

verus! {

/// Total size of the videos listed in `vids`.
pub open spec fn listed_size(sizes: Seq<u32>, vids: Seq<usize>) -> int
    decreases vids.len(),
{
    if vids.len() == 0 {
        0
    } else {
        listed_size(sizes, vids.drop_last()) + sizes[vids.last() as int]
    }
}

/// Sum of a sequence of usage counters.
pub open spec fn total_usage(usage: Seq<u32>) -> int
    decreases usage.len(),
{
    if usage.len() == 0 {
        0
    } else {
        total_usage(usage.drop_last()) + usage.last()
    }
}

/// Number of placements listed in `rows`.
pub open spec fn placed_count(rows: Seq<Vec<usize>>) -> int
    decreases rows.len(),
{
    if rows.len() == 0 {
        0
    } else {
        placed_count(rows.drop_last()) + rows.last()@.len()
    }
}

/// Replacing one row changes the count by the change in its length.
pub proof fn lemma_placed_count_update(rows: Seq<Vec<usize>>, i: int, x: Vec<usize>)
    requires
        0 <= i < rows.len(),
    ensures
        placed_count(rows.update(i, x)) == placed_count(rows) - rows[i]@.len() + x@.len(),
    decreases rows.len(),
{
    if i == rows.len() - 1 {
        assert(rows.update(i, x).drop_last() =~= rows.drop_last());
    } else {
        lemma_placed_count_update(rows.drop_last(), i, x);
        assert(rows.update(i, x).drop_last() =~= rows.drop_last().update(i, x));
    }
}

/// Per cache: the videos it stores, in the order they were placed, and the
/// storage they take up.
#[derive(Debug)]
pub struct Allocation {
    pub stored: Vec<Vec<usize>>,
    pub usage: Vec<u32>,
}

impl Allocation {
    /// Cache `c` stores video `v`.
    pub open spec fn holds(&self, c: int, v: usize) -> bool {
        self.stored@[c]@.contains(v)
    }

    /// The set of (cache, video) placements.
    pub open spec fn placements(&self) -> Set<(usize, usize)> {
        Set::new(|p: (usize, usize)| p.0 < self.stored@.len() && self.holds(p.0 as int, p.1))
    }

    /// Each cache lists existing videos without repetition, its counter is
    /// their total size, and that total is within the capacity.
    pub open spec fn wf(&self, m: &DemandModel) -> bool {
        &&& self.stored@.len() == m.cache_count
        &&& self.usage@.len() == m.cache_count
        &&& forall|c: int|
            0 <= c < self.stored@.len() ==> {
                &&& (#[trigger] self.stored@[c])@.no_duplicates()
                &&& forall|k: int|
                    0 <= k < self.stored@[c]@.len() ==> #[trigger] self.stored@[c]@[k]
                        < m.video_count()
                &&& self.usage@[c] == listed_size(m.sizes@, self.stored@[c]@)
                &&& self.usage@[c] <= m.capacity
            }
    }

    /// Video `v` is not on cache `c` and still fits in it.
    pub open spec fn admits(&self, m: &DemandModel, c: int, v: usize) -> bool {
        &&& !self.holds(c, v)
        &&& self.usage@[c] + m.size_of(v as int) <= m.capacity
    }

    /// Every cache of `self` still holds what it held in `prev`.
    pub open spec fn extends(&self, prev: &Allocation) -> bool {
        &&& self.stored@.len() == prev.stored@.len()
        &&& forall|c: int, v: usize| 0 <= c < prev.stored@.len() && #[trigger] prev.holds(c, v)
            ==> #[trigger] self.holds(c, v)
    }

    /// An allocation with every cache empty.
    pub fn empty(m: &DemandModel) -> (r: Allocation)
        ensures
            r.wf(m),
            forall|c: int| 0 <= c < m.cache_count ==> (#[trigger] r.stored@[c])@.len() == 0,
            total_usage(r.usage@) == 0,
    {
        let mut stored: Vec<Vec<usize>> = Vec::new();
        let mut usage: Vec<u32> = Vec::new();
        let mut i: usize = 0;
        while i < m.cache_count
            invariant
                i <= m.cache_count,
                stored@.len() == i,
                usage@.len() == i,
                forall|c: int| 0 <= c < i ==> (#[trigger] stored@[c])@.len() == 0,
                forall|c: int| 0 <= c < i ==> #[trigger] usage@[c] == 0,
                total_usage(usage@) == 0,
            decreases m.cache_count - i,
        {
            stored.push(Vec::new());
            proof {
                assert(usage@.push(0u32).drop_last() =~= usage@);
            }
            usage.push(0);
            i += 1;
        }
        Allocation { stored, usage }
    }

    /// Whether cache `c` stores video `v`.
    pub fn is_stored(&self, c: usize, v: usize) -> (r: bool)
        requires
            c < self.stored@.len(),
        ensures
            r == self.holds(c as int, v),
    {
        let row = &self.stored[c];
        let mut k: usize = 0;
        while k < row.len()
            invariant
                k <= row@.len(),
                row@ == self.stored@[c as int]@,
                forall|j: int| 0 <= j < k ==> row@[j] != v,
            decreases row.len() - k,
        {
            if row[k] == v {
                assert(row@[k as int] == v);
                return true;
            }
            k += 1;
        }
        false
    }

    /// Storage in use on cache `c`.
    pub fn cache_usage(&self, c: usize) -> (r: u32)
        requires
            c < self.usage@.len(),
        ensures
            r == self.usage@[c as int],
    {
        self.usage[c]
    }

    /// Whether video `v` would fit in the room left on cache `c`.
    pub fn fits(&self, m: &DemandModel, c: usize, v: usize) -> (r: bool)
        requires
            self.wf(m),
            c < m.cache_count,
            v < m.video_count(),
        ensures
            r == (self.usage@[c as int] + m.size_of(v as int) <= m.capacity),
    {
        proof {
            assert(self.stored@[c as int]@.len() >= 0);
        }
        m.sizes[v] <= m.capacity - self.usage[c]
    }

    /// Whether placing video `v` on cache `c` is allowed now.
    pub fn is_admissible(&self, m: &DemandModel, c: usize, v: usize) -> (r: bool)
        requires
            self.wf(m),
            c < m.cache_count,
            v < m.video_count(),
        ensures
            r == self.admits(m, c as int, v),
    {
        !self.is_stored(c, v) && self.fits(m, c, v)
    }

    /// Stores video `v` on cache `c`; the caller has checked that it is
    /// admissible.
    pub fn insert(&mut self, m: &DemandModel, c: usize, v: usize)
        requires
            old(self).wf(m),
            c < m.cache_count,
            v < m.video_count(),
            old(self).admits(m, c as int, v),
        ensures
            final(self).wf(m),
            final(self).stored@[c as int]@ == old(self).stored@[c as int]@.push(v),
            final(self).usage@[c as int] == old(self).usage@[c as int] + m.size_of(v as int),
            forall|d: int| 0 <= d < m.cache_count && d != c ==> {
                &&& #[trigger] final(self).stored@[d] == old(self).stored@[d]
                &&& final(self).usage@[d] == old(self).usage@[d]
            },
            final(self).extends(old(self)),
            final(self).placements() == old(self).placements().insert((c, v)),
            total_usage(final(self).usage@) == total_usage(old(self).usage@) + m.size_of(
                v as int,
            ),
            placed_count(final(self).stored@) == placed_count(old(self).stored@) + 1,
    {
        let mut row = self.stored[c].clone();
        proof {
            assert(row@ =~= self.stored@[c as int]@);
        }
        row.push(v);
        let ghost prev_row = self.stored@[c as int]@;
        proof {
            assert(row@.drop_last() =~= prev_row);
            assert(old(self).stored@[c as int]@.len() >= 0);
            assert forall|x: int, y: int| 0 <= x < row@.len() && 0 <= y < row@.len() && x != y
                implies row@[x] != row@[y] by {
                if y == row@.len() - 1 {
                    assert(prev_row[x] == row@[x]);
                } else if x == row@.len() - 1 {
                    assert(prev_row[y] == row@[y]);
                }
            }
            assert(row@.no_duplicates());
        }
        let ghost rows_before = self.stored@;
        self.stored.set(c, row);
        proof {
            lemma_placed_count_update(rows_before, c as int, row);
        }
        let new_usage = self.usage[c] + m.sizes[v];
        let ghost prev_usage = self.usage@;
        self.usage.set(c, new_usage);
        proof {
            lemma_total_usage_update(prev_usage, c as int, new_usage);
            assert forall|d: int, w: usize| 0 <= d < old(self).stored@.len() && #[trigger] old(
                self,
            ).holds(d, w) implies #[trigger] self.holds(d, w) by {
                if d == c {
                    let k = choose|k: int| 0 <= k < prev_row.len() && prev_row[k] == w as usize;
                    assert(self.stored@[d]@[k] == w as usize);
                }
            }
            assert(self.holds(c as int, v)) by {
                assert(self.stored@[c as int]@[prev_row.len() as int] == v);
            }
            assert(self.placements() =~= old(self).placements().insert((c, v)));
            assert forall|d: int| 0 <= d < self.stored@.len() implies {
                &&& (#[trigger] self.stored@[d])@.no_duplicates()
                &&& forall|k: int|
                    0 <= k < self.stored@[d]@.len() ==> #[trigger] self.stored@[d]@[k]
                        < m.video_count()
                &&& self.usage@[d] == listed_size(m.sizes@, self.stored@[d]@)
                &&& self.usage@[d] <= m.capacity
            } by {
                assert(old(self).stored@[d]@.len() >= 0);
                if d == c {
                    assert(self.stored@[d]@ == row@);
                    assert(self.stored@[d]@.drop_last() =~= prev_row);
                    assert forall|k: int| 0 <= k < row@.len() implies #[trigger] row@[k]
                        < m.video_count() by {
                        if k < prev_row.len() {
                            assert(prev_row[k] == row@[k]);
                        }
                    }
                } else {
                    assert(self.stored@[d] == old(self).stored@[d]);
                }
            }
        }
    }
}

/// Changing one counter changes the total by the same amount.
pub proof fn lemma_total_usage_update(s: Seq<u32>, i: int, x: u32)
    requires
        0 <= i < s.len(),
    ensures
        total_usage(s.update(i, x)) == total_usage(s) - s[i] + x,
    decreases s.len(),
{
    if i == s.len() - 1 {
        assert(s.update(i, x).drop_last() =~= s.drop_last());
    } else {
        lemma_total_usage_update(s.drop_last(), i, x);
        assert(s.update(i, x).drop_last() =~= s.drop_last().update(i, x));
    }
}

/// A total of counters each within `cap` is within `len * cap`.
pub proof fn lemma_total_usage_bound(s: Seq<u32>, cap: int)
    requires
        forall|i: int| 0 <= i < s.len() ==> #[trigger] s[i] <= cap,
    ensures
        0 <= total_usage(s) <= s.len() * cap,
    decreases s.len(),
{
    if s.len() > 0 {
        lemma_total_usage_bound(s.drop_last(), cap);
        assert(s.len() * cap == (s.len() - 1) * cap + cap) by (nonlinear_arith);
    }
}

} // verus!
