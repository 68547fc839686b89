//! The demand aggregator: merges raw request lines that name the same
//! (video, endpoint) pair by summing their volumes.

use vstd::prelude::*;
use crate::model::Request;
use crate::scoring::Candidate;
use crate::aggregate::{capped, has_key, key_total, lemma_key_total_nonneg, same_key, sum_by_key};

verus! {

broadcast use vstd::seq_lib::group_to_multiset_ensures;

/// Some raw line asks for video `v` at endpoint `e`.
pub open spec fn demanded(raw: Seq<Request>, v: usize, e: usize) -> bool {
    exists|i: int| 0 <= i < raw.len() && (#[trigger] raw[i]).video == v && raw[i].endpoint == e
}

/// Sum of the volumes of the raw lines for video `v` at endpoint `e`.
pub open spec fn demand_total(raw: Seq<Request>, v: usize, e: usize) -> int
    decreases raw.len(),
{
    if raw.len() == 0 {
        0
    } else {
        demand_total(raw.drop_last(), v, e) + if raw.last().video == v && raw.last().endpoint
            == e {
            raw.last().amount as int
        } else {
            0
        }
    }
}

/// `out` holds each pair that `raw` asks for exactly once, with its total
/// volume.
pub open spec fn aggregated_from(out: Seq<Request>, raw: Seq<Request>) -> bool {
    &&& forall|j: int, k: int|
        0 <= j < k < out.len() ==> !((#[trigger] out[j]).video == (#[trigger] out[k]).video
            && out[j].endpoint == out[k].endpoint)
    &&& forall|j: int|
        0 <= j < out.len() ==> {
            &&& demanded(raw, (#[trigger] out[j]).video, out[j].endpoint)
            &&& out[j].amount == demand_total(raw, out[j].video, out[j].endpoint)
        }
    &&& forall|i: int| 0 <= i < raw.len() ==> demanded(out, (#[trigger] raw[i]).video, raw[i].endpoint)
}

/// Every pair's total volume fits in `u32`.
pub open spec fn volumes_fit(raw: Seq<Request>) -> bool {
    forall|i: int|
        0 <= i < raw.len() ==> demand_total(raw, (#[trigger] raw[i]).video, raw[i].endpoint)
            <= u32::MAX
}

/// A raw line seen as a tally keyed by (endpoint, video).
pub open spec fn as_tally(r: Request) -> Candidate {
    Candidate { cache: r.endpoint, video: r.video, benefit: r.amount as u64 }
}

proof fn lemma_tally_total(raw: Seq<Request>, t: Seq<Candidate>, v: usize, e: usize)
    requires
        t.len() == raw.len(),
        forall|i: int| 0 <= i < raw.len() ==> #[trigger] t[i] == as_tally(raw[i]),
    ensures
        key_total(t, e, v) == demand_total(raw, v, e),
        has_key(t, e, v) == demanded(raw, v, e),
    decreases raw.len(),
{
    if raw.len() > 0 {
        lemma_tally_total(raw.drop_last(), t.drop_last(), v, e);
        assert(t.last() == t[t.len() - 1]);
        if has_key(t, e, v) {
            let i = choose|i: int| 0 <= i < t.len() && (#[trigger] t[i]).cache == e && t[i].video == v;
            assert(raw[i].video == v && raw[i].endpoint == e);
        }
        if demanded(raw, v, e) {
            let i = choose|i: int|
                0 <= i < raw.len() && (#[trigger] raw[i]).video == v && raw[i].endpoint == e;
            assert(t[i].cache == e && t[i].video == v);
        }
    }
}

/// Merges the raw lines per (video, endpoint) pair, in the order the pairs
/// first occur. Fails exactly when some pair's total volume exceeds `u32`.
pub fn aggregate_requests(raw: &Vec<Request>, video_count: usize) -> (res: Option<Vec<Request>>)
    requires
        forall|i: int| 0 <= i < raw@.len() ==> (#[trigger] raw@[i]).video < video_count,
    ensures
        res is None <==> !volumes_fit(raw@),
        res matches Some(out) ==> aggregated_from(out@, raw@),
{
    let mut tallies: Vec<Candidate> = Vec::new();
    let mut i: usize = 0;
    while i < raw.len()
        invariant
            i <= raw@.len(),
            tallies@.len() == i,
            forall|k: int| 0 <= k < i ==> #[trigger] tallies@[k] == as_tally(raw@[k]),
        decreases raw.len() - i,
    {
        let r = raw[i];
        tallies.push(Candidate { cache: r.endpoint, video: r.video, benefit: r.amount as u64 });
        i += 1;
    }
    let sums = sum_by_key(&tallies, video_count);
    let mut out: Vec<Request> = Vec::new();
    let mut j: usize = 0;
    while j < sums.len()
        invariant
            tallies@.len() == raw@.len(),
            forall|k: int| 0 <= k < raw@.len() ==> #[trigger] tallies@[k] == as_tally(raw@[k]),
            j <= sums@.len(),
            out@.len() == j,
            forall|k1: int, k2: int|
                0 <= k1 < k2 < sums@.len() ==> !same_key(#[trigger] sums@[k1], #[trigger] sums@[k2]),
            forall|k: int|
                0 <= k < sums@.len() ==> {
                    &&& has_key(tallies@, (#[trigger] sums@[k]).cache, sums@[k].video)
                    &&& sums@[k].benefit == capped(key_total(tallies@, sums@[k].cache, sums@[k].video))
                },
            forall|i: int|
                0 <= i < tallies@.len() ==> has_key(sums@, (#[trigger] tallies@[i]).cache, tallies@[i].video),
            forall|k: int|
                0 <= k < j ==> {
                    &&& (#[trigger] out@[k]).video == sums@[k].video
                    &&& out@[k].endpoint == sums@[k].cache
                    &&& out@[k].amount == sums@[k].benefit
                    &&& sums@[k].benefit <= u32::MAX
                },
        decreases sums.len() - j,
    {
        let s = sums[j];
        if s.benefit > u32::MAX as u64 {
            proof {
                lemma_tally_total(raw@, tallies@, s.video, s.cache);
                lemma_key_total_nonneg(tallies@, s.cache, s.video);
                let i = choose|i: int|
                    0 <= i < raw@.len() && (#[trigger] raw@[i]).video == s.video && raw@[i].endpoint
                        == s.cache;
                assert(demand_total(raw@, raw@[i].video, raw@[i].endpoint) > u32::MAX);
            }
            return None;
        }
        let ghost before = out@;
        out.push(Request { video: s.video, endpoint: s.cache, amount: s.benefit as u32 });
        proof {
            assert forall|k: int| 0 <= k < j + 1 implies {
                &&& (#[trigger] out@[k]).video == sums@[k].video
                &&& out@[k].endpoint == sums@[k].cache
                &&& out@[k].amount == sums@[k].benefit
                &&& sums@[k].benefit <= u32::MAX
            } by {
                if k < j {
                    assert(out@[k] == before[k]);
                }
            }
        }
        j += 1;
    }
    proof {
        assert forall|i: int| 0 <= i < raw@.len() implies demand_total(
            raw@,
            (#[trigger] raw@[i]).video,
            raw@[i].endpoint,
        ) <= u32::MAX && demanded(out@, raw@[i].video, raw@[i].endpoint) by {
            let x = raw@[i];
            assert(tallies@[i] == as_tally(x));
            let k = choose|k: int|
                0 <= k < sums@.len() && (#[trigger] sums@[k]).cache == x.endpoint && sums@[k].video
                    == x.video;
            lemma_tally_total(raw@, tallies@, x.video, x.endpoint);
            assert(out@[k].video == x.video);
        }
        assert forall|j: int| 0 <= j < out@.len() implies {
            &&& demanded(raw@, (#[trigger] out@[j]).video, out@[j].endpoint)
            &&& out@[j].amount == demand_total(raw@, out@[j].video, out@[j].endpoint)
        } by {
            lemma_tally_total(raw@, tallies@, out@[j].video, out@[j].endpoint);
            lemma_key_total_nonneg(tallies@, out@[j].endpoint, out@[j].video);
            assert(sums@[j].benefit == out@[j].amount);
        }
        assert forall|j: int, k: int| 0 <= j < k < out@.len() implies !((#[trigger] out@[j]).video
            == (#[trigger] out@[k]).video && out@[j].endpoint == out@[k].endpoint) by {
            assert(!same_key(sums@[j], sums@[k]));
        }
    }
    Some(out)
}

/// Removing one raw line takes its volume off its own pair's total.
proof fn lemma_demand_total_remove(raw: Seq<Request>, i: int, v: usize, e: usize)
    requires
        0 <= i < raw.len(),
    ensures
        demand_total(raw, v, e) == demand_total(raw.remove(i), v, e) + if raw[i].video == v
            && raw[i].endpoint == e {
            raw[i].amount as int
        } else {
            0
        },
    decreases raw.len(),
{
    if i == raw.len() - 1 {
        assert(raw.remove(i) =~= raw.drop_last());
    } else {
        lemma_demand_total_remove(raw.drop_last(), i, v, e);
        assert(raw.remove(i).drop_last() =~= raw.drop_last().remove(i));
        assert(raw.remove(i).last() == raw.last());
    }
}

/// Aggregation does not depend on the order of the raw lines: two orderings
/// of the same lines ask for the same pairs, with the same total volumes.
pub proof fn lemma_aggregation_order_free(raw1: Seq<Request>, raw2: Seq<Request>, v: usize, e: usize)
    requires
        raw1.to_multiset() == raw2.to_multiset(),
    ensures
        demand_total(raw1, v, e) == demand_total(raw2, v, e),
        demanded(raw1, v, e) == demanded(raw2, v, e),
    decreases raw1.len(),
{
    if raw1.len() == 0 {
        assert(raw2.to_multiset().len() == 0);
    } else {
        let x = raw1.last();
        assert(raw1.drop_last().push(x) =~= raw1);
        assert(raw1.contains(x)) by {
            assert(raw1[raw1.len() - 1] == x);
        }
        assert(raw1.to_multiset().count(x) > 0);
        assert(raw2.to_multiset().count(x) > 0);
        assert(raw2.contains(x));
        let i = choose|i: int| 0 <= i < raw2.len() && raw2[i] == x;
        assert(raw2.remove(i).to_multiset() =~= raw1.drop_last().to_multiset()) by {
            assert(raw1.to_multiset() =~= raw1.drop_last().to_multiset().insert(x));
        }
        lemma_aggregation_order_free(raw1.drop_last(), raw2.remove(i), v, e);
        lemma_demand_total_remove(raw2, i, v, e);
    }
    if demanded(raw1, v, e) {
        let k = choose|k: int|
            0 <= k < raw1.len() && (#[trigger] raw1[k]).video == v && raw1[k].endpoint == e;
        assert(raw1.contains(raw1[k]));
        assert(raw1.to_multiset().count(raw1[k]) > 0);
        assert(raw2.contains(raw1[k]));
    }
    if demanded(raw2, v, e) {
        let k = choose|k: int|
            0 <= k < raw2.len() && (#[trigger] raw2[k]).video == v && raw2[k].endpoint == e;
        assert(raw2.contains(raw2[k]));
        assert(raw2.to_multiset().count(raw2[k]) > 0);
        assert(raw1.contains(raw2[k]));
    }
}

} // verus!
