//! Summing values that share a (cache, video) key, keeping the first-seen
//! order of the keys.

use vstd::prelude::*;
use std::collections::HashMap;
use crate::scoring::Candidate;

verus! {

broadcast use vstd::std_specs::hash::group_hash_axioms;

/// The two candidates name the same placement.
pub open spec fn same_key(a: Candidate, b: Candidate) -> bool {
    a.cache == b.cache && a.video == b.video
}

/// Some item of `s` has key `(cache, video)`.
pub open spec fn has_key(s: Seq<Candidate>, cache: usize, video: usize) -> bool {
    exists|i: int| 0 <= i < s.len() && (#[trigger] s[i]).cache == cache && s[i].video == video
}

/// Key `(c1, v1)` first occurs in `s` before key `(c2, v2)` does.
pub open spec fn seen_before(s: Seq<Candidate>, c1: usize, v1: usize, c2: usize, v2: usize) -> bool {
    exists|i: int|
        0 <= i < s.len() && (#[trigger] s[i]).cache == c1 && s[i].video == v1 && forall|j: int|
            0 <= j <= i ==> !((#[trigger] s[j]).cache == c2 && s[j].video == v2)
}

/// Sum of the values of the items of `s` with key `(cache, video)`.
pub open spec fn key_total(s: Seq<Candidate>, cache: usize, video: usize) -> int
    decreases s.len(),
{
    if s.len() == 0 {
        0
    } else {
        key_total(s.drop_last(), cache, video) + if s.last().cache == cache && s.last().video
            == video {
            s.last().benefit as int
        } else {
            0
        }
    }
}

/// `x`, or the largest `u64` where `x` is beyond it.
pub open spec fn capped(x: int) -> u64 {
    if x > u64::MAX {
        u64::MAX
    } else {
        x as u64
    }
}

/// The position of a key in the index.
pub open spec fn key_code(cache: usize, video: usize, width: usize) -> u128 {
    (cache * width + video) as u128
}

proof fn lemma_key_code(c1: usize, v1: usize, c2: usize, v2: usize, width: usize)
    requires
        v1 < width,
        v2 < width,
    ensures
        0 <= c1 * width + v1 <= u128::MAX,
        key_code(c1, v1, width) == key_code(c2, v2, width) ==> c1 == c2 && v1 == v2,
{
    assert(0 <= c1 * width + v1 <= u128::MAX) by (nonlinear_arith)
        requires
            c1 <= usize::MAX,
            width <= usize::MAX,
            v1 < width,
            usize::MAX < 0x1_0000_0000_0000_0000,
    ;
    assert(0 <= c2 * width + v2 <= u128::MAX) by (nonlinear_arith)
        requires
            c2 <= usize::MAX,
            width <= usize::MAX,
            v2 < width,
            usize::MAX < 0x1_0000_0000_0000_0000,
    ;
    if c1 * width + v1 == c2 * width + v2 {
        assert(c1 == c2 && v1 == v2) by (nonlinear_arith)
            requires
                c1 * width + v1 == c2 * width + v2,
                0 <= v1 < width,
                0 <= v2 < width,
                0 <= c1,
                0 <= c2,
        ;
    }
}

/// One item per distinct key of `items`, in the order the keys first occur,
/// each carrying the key's total (capped at `u64::MAX`).
pub fn sum_by_key(items: &Vec<Candidate>, width: usize) -> (out: Vec<Candidate>)
    requires
        forall|i: int| 0 <= i < items@.len() ==> (#[trigger] items@[i]).video < width,
    ensures
        forall|j: int, k: int|
            0 <= j < k < out@.len() ==> !same_key(#[trigger] out@[j], #[trigger] out@[k]),
        forall|j: int, k: int|
            0 <= j < k < out@.len() ==> seen_before(
                items@,
                (#[trigger] out@[j]).cache,
                out@[j].video,
                (#[trigger] out@[k]).cache,
                out@[k].video,
            ),
        forall|j: int|
            0 <= j < out@.len() ==> {
                &&& has_key(items@, (#[trigger] out@[j]).cache, out@[j].video)
                &&& out@[j].benefit == capped(key_total(items@, out@[j].cache, out@[j].video))
            },
        forall|i: int|
            0 <= i < items@.len() ==> has_key(out@, (#[trigger] items@[i]).cache, items@[i].video),
{
    let mut index: HashMap<u128, usize> = HashMap::new();
    let mut out: Vec<Candidate> = Vec::new();
    let mut i: usize = 0;
    while i < items.len()
        invariant
            i <= items@.len(),
            forall|i: int| 0 <= i < items@.len() ==> (#[trigger] items@[i]).video < width,
            forall|j: int|
                0 <= j < out@.len() ==> {
                    &&& (#[trigger] out@[j]).video < width
                    &&& index@.contains_key(key_code(out@[j].cache, out@[j].video, width))
                    &&& index@[key_code(out@[j].cache, out@[j].video, width)] == j
                    &&& has_key(items@.take(i as int), out@[j].cache, out@[j].video)
                    &&& out@[j].benefit == capped(
                        key_total(items@.take(i as int), out@[j].cache, out@[j].video),
                    )
                },
            forall|k: u128|
                #[trigger] index@.contains_key(k) ==> index@[k] < out@.len() && key_code(
                    out@[index@[k] as int].cache,
                    out@[index@[k] as int].video,
                    width,
                ) == k,
            forall|i2: int|
                0 <= i2 < i ==> index@.contains_key(
                    key_code((#[trigger] items@[i2]).cache, items@[i2].video, width),
                ),
            forall|j: int, k: int|
                0 <= j < k < out@.len() ==> seen_before(
                    items@.take(i as int),
                    (#[trigger] out@[j]).cache,
                    out@[j].video,
                    (#[trigger] out@[k]).cache,
                    out@[k].video,
                ),
        decreases items.len() - i,
    {
        let it = items[i];
        proof {
            lemma_key_code(it.cache, it.video, it.cache, it.video, width);
        }
        let key: u128 = it.cache as u128 * width as u128 + it.video as u128;
        let ghost prev = items@.take(i as int);
        let ghost next = items@.take(i as int + 1);
        proof {
            assert(next.drop_last() =~= prev);
            assert(next.last() == it);
        }
        let found = index.get(&key);
        match found {
            Some(j) => {
                let j: usize = *j;
                let cur = out[j];
                proof {
                    lemma_key_code(cur.cache, cur.video, it.cache, it.video, width);
                }
                let total = if cur.benefit > u64::MAX - it.benefit {
                    u64::MAX
                } else {
                    cur.benefit + it.benefit
                };
                let ghost before = out@;
                out.set(j, Candidate { cache: cur.cache, video: cur.video, benefit: total });
                proof {
                    assert forall|j2: int| 0 <= j2 < out@.len() implies {
                        &&& (#[trigger] out@[j2]).video < width
                        &&& index@.contains_key(key_code(out@[j2].cache, out@[j2].video, width))
                        &&& index@[key_code(out@[j2].cache, out@[j2].video, width)] == j2
                        &&& has_key(next, out@[j2].cache, out@[j2].video)
                        &&& out@[j2].benefit == capped(
                            key_total(next, out@[j2].cache, out@[j2].video),
                        )
                    } by {
                        let w = before[j2];
                        let i3 = choose|i3: int|
                            0 <= i3 < prev.len() && (#[trigger] prev[i3]).cache == w.cache
                                && prev[i3].video == w.video;
                        assert(next[i3] == prev[i3]);
                        if j2 != j {
                            lemma_key_code(w.cache, w.video, it.cache, it.video, width);
                        } else {
                            assert(out@[j2].cache == w.cache);
                            lemma_key_total_nonneg(prev, w.cache, w.video);
                            assert(key_total(next, w.cache, w.video) == key_total(
                                prev,
                                w.cache,
                                w.video,
                            ) + it.benefit);
                        }
                    }
                }
            },
            None => {
                let ghost before = out@;
                let ghost old_index = index@;
                index.insert(key, out.len());
                out.push(it);
                proof {
                    assert forall|j2: int| 0 <= j2 < out@.len() implies {
                        &&& (#[trigger] out@[j2]).video < width
                        &&& index@.contains_key(key_code(out@[j2].cache, out@[j2].video, width))
                        &&& index@[key_code(out@[j2].cache, out@[j2].video, width)] == j2
                        &&& has_key(next, out@[j2].cache, out@[j2].video)
                        &&& out@[j2].benefit == capped(
                            key_total(next, out@[j2].cache, out@[j2].video),
                        )
                    } by {
                        if j2 < before.len() {
                            let w = before[j2];
                            let i3 = choose|i3: int|
                                0 <= i3 < prev.len() && (#[trigger] prev[i3]).cache == w.cache
                                    && prev[i3].video == w.video;
                            assert(next[i3] == prev[i3]);
                            lemma_key_code(w.cache, w.video, it.cache, it.video, width);
                        } else {
                            assert(next[i as int] == it);
                            lemma_key_total_absent(prev, it.cache, it.video);
                        }
                    }
                    assert forall|k: u128| #[trigger] index@.contains_key(k) implies index@[k]
                        < out@.len() && key_code(
                        out@[index@[k] as int].cache,
                        out@[index@[k] as int].video,
                        width,
                    ) == k by {
                        if k != key {
                            assert(old_index.contains_key(k));
                        }
                    }
                }
            },
        }
        i += 1;
    }
    proof {
        assert(items@.take(i as int) =~= items@);
        assert forall|i2: int| 0 <= i2 < items@.len() implies has_key(
            out@,
            (#[trigger] items@[i2]).cache,
            items@[i2].video,
        ) by {
            let x = items@[i2];
            let k = key_code(x.cache, x.video, width);
            assert(index@.contains_key(k));
            let j = index@[k];
            lemma_key_code(x.cache, x.video, out@[j as int].cache, out@[j as int].video, width);
            assert(same_key(x, out@[j as int]));
        }
    }
    out
}

/// Totals of unsigned values are not negative.
pub proof fn lemma_key_total_nonneg(s: Seq<Candidate>, cache: usize, video: usize)
    ensures
        key_total(s, cache, video) >= 0,
    decreases s.len(),
{
    if s.len() > 0 {
        lemma_key_total_nonneg(s.drop_last(), cache, video);
    }
}

/// A key that no item carries totals zero.
proof fn lemma_key_total_absent(s: Seq<Candidate>, cache: usize, video: usize)
    requires
        !has_key(s, cache, video),
    ensures
        key_total(s, cache, video) == 0,
    decreases s.len(),
{
    if s.len() > 0 {
        assert forall|i: int| 0 <= i < s.drop_last().len() implies !((#[trigger] s.drop_last()[i]).cache
            == cache && s.drop_last()[i].video == video) by {
            assert(s.drop_last()[i] == s[i]);
        }
        assert(s.last() == s[s.len() - 1]);
        lemma_key_total_absent(s.drop_last(), cache, video);
    }
}

} // verus!
