//! The plan evaluator: latency saved by an allocation, and the normalized
//! score.

use vstd::prelude::*;
use vstd::arithmetic::div_mod::{lemma_fundamental_div_mod, lemma_hoist_over_denominator};
use crate::model::{DemandModel, Request};
use crate::allocation::Allocation;

verus! {

/// The first link, from position `k` on, whose cache stores the request's
/// video.
pub open spec fn first_holding_from(m: &DemandModel, a: &Allocation, r: Request, k: int) -> Option<
    int,
>
    decreases m.endpoints@[r.endpoint as int].connections@.len() - k,
{
    let conns = m.endpoints@[r.endpoint as int].connections@;
    if k < 0 || k >= conns.len() {
        None
    } else if a.holds(conns[k].cache as int, r.video) {
        Some(k)
    } else {
        first_holding_from(m, a, r, k + 1)
    }
}

/// Latency saved for request `r`: its volume times the gap between the
/// datacenter and the fastest link whose cache stores the video; zero when no
/// such cache exists.
pub open spec fn saved_for(m: &DemandModel, a: &Allocation, r: Request) -> int {
    match first_holding_from(m, a, r, 0) {
        Some(k) => (m.endpoints@[r.endpoint as int].latency
            - m.endpoints@[r.endpoint as int].connections@[k].latency) * r.amount,
        None => 0,
    }
}

/// Latency saved over the first `n` requests.
pub open spec fn saved_upto(m: &DemandModel, a: &Allocation, n: int) -> int
    decreases n,
{
    if n <= 0 {
        0
    } else {
        saved_upto(m, a, n - 1) + saved_for(m, a, m.requests@[n - 1])
    }
}

/// Volume of the first `n` requests.
pub open spec fn volume_upto(reqs: Seq<Request>, n: int) -> int
    decreases n,
{
    if n <= 0 {
        0
    } else {
        volume_upto(reqs, n - 1) + reqs[n - 1].amount
    }
}

/// Latency saved over all requests.
pub open spec fn total_saved(m: &DemandModel, a: &Allocation) -> int {
    saved_upto(m, a, m.requests@.len() as int)
}

/// Volume of all requests.
pub open spec fn total_volume(m: &DemandModel) -> int {
    volume_upto(m.requests@, m.requests@.len() as int)
}

/// What the evaluator reports.
#[derive(Clone, Copy, Debug, PartialEq, Eq, Structural)]
pub struct Score {
    /// Total latency saved, weighted by request volume.
    pub saved: u128,
    /// Total request volume.
    pub requests: u128,
    /// `floor(saved * 1000 / requests)`, or zero when there are no requests.
    pub normalized: u64,
}

/// The fastest link whose cache stores the request's video, if any.
pub fn serving_link(m: &DemandModel, a: &Allocation, r: &Request) -> (res: Option<u32>)
    requires
        m.wf(),
        a.wf(m),
        m.request_ok(*r),
    ensures
        res == (match first_holding_from(m, a, *r, 0) {
            Some(k) => Some(m.endpoints@[r.endpoint as int].connections@[k].latency),
            None => None::<u32>,
        }),
{
    let e = &m.endpoints[r.endpoint];
    proof {
        assert(e.wf(m.cache_count as nat));
    }
    let mut k: usize = 0;
    while k < e.connections.len()
        invariant
            m.wf(),
            a.wf(m),
            *e == m.endpoints@[r.endpoint as int],
            e.wf(m.cache_count as nat),
            k <= e.connections@.len(),
            first_holding_from(m, a, *r, 0) == first_holding_from(m, a, *r, k as int),
        decreases e.connections.len() - k,
    {
        let conn = e.connections[k];
        if a.is_stored(conn.cache, r.video) {
            return Some(conn.latency);
        }
        k += 1;
    }
    None
}

/// Scores an allocation: latency saved, request volume, and the normalized
/// score.
pub fn score(m: &DemandModel, a: &Allocation) -> (s: Score)
    requires
        m.wf(),
        a.wf(m),
    ensures
        s.saved == total_saved(m, a),
        s.requests == total_volume(m),
        s.normalized == if total_volume(m) == 0 {
            0
        } else {
            total_saved(m, a) * 1000 / total_volume(m)
        },
{
    let mut saved: u128 = 0;
    let mut volume: u128 = 0;
    let mut i: usize = 0;
    while i < m.requests.len()
        invariant
            m.wf(),
            a.wf(m),
            i <= m.requests@.len(),
            saved == saved_upto(m, a, i as int),
            volume == volume_upto(m.requests@, i as int),
            0 <= saved <= volume * 0xffff_ffff,
            volume <= i * 0xffff_ffff,
        decreases m.requests.len() - i,
    {
        let r = m.requests[i];
        proof {
            assert(m.request_ok(r));
            assert(m.endpoints@[r.endpoint as int].wf(m.cache_count as nat));
        }
        match serving_link(m, a, &r) {
            Some(link) => {
                let dc = m.endpoints[r.endpoint].latency;
                proof {
                    let k = first_holding_from(m, a, r, 0)->0;
                    lemma_first_holding(m, a, r, 0);
                    assert(link <= dc);
                    assert((dc - link) * r.amount <= 0xffff_ffff * r.amount) by (nonlinear_arith)
                        requires
                            link <= dc,
                            dc <= 0xffff_ffff,
                    ;
                    assert(0 <= (dc - link) * r.amount) by (nonlinear_arith)
                        requires
                            link <= dc,
                    ;
                    assert((volume + r.amount) * 0xffff_ffff == volume * 0xffff_ffff + r.amount
                        * 0xffff_ffff) by (nonlinear_arith);
                    assert(volume * 0xffff_ffff <= i * 0xffff_ffff * 0xffff_ffff) by (
                    nonlinear_arith)
                        requires
                            volume <= i * 0xffff_ffff,
                    ;
                }
                saved = saved + (dc - link) as u128 * r.amount as u128;
            },
            None => {
                proof {
                    assert((volume + r.amount) * 0xffff_ffff == volume * 0xffff_ffff + r.amount
                        * 0xffff_ffff) by (nonlinear_arith);
                }
            },
        }
        volume = volume + r.amount as u128;
        i += 1;
    }
    let normalized: u64 = if volume == 0 {
        0
    } else {
        let q = saved / volume;
        let rem = saved % volume;
        proof {
            lemma_fundamental_div_mod(saved as int, volume as int);
            assert(q <= 0xffff_ffff) by (nonlinear_arith)
                requires
                    q == saved / volume,
                    saved <= volume * 0xffff_ffff,
                    volume > 0,
            ;
            assert(rem * 1000 / (volume as int) < 1000) by (nonlinear_arith)
                requires
                    rem < volume,
                    volume > 0,
            ;
            lemma_hoist_over_denominator(rem * 1000, q * 1000, volume as nat);
            assert(rem * 1000 + q * 1000 * volume == saved * 1000) by (nonlinear_arith)
                requires
                    saved == volume * q + rem,
            ;
        }
        (q * 1000 + rem * 1000 / volume) as u64
    };
    Score { saved, requests: volume, normalized }
}

/// A link found by the search is in range and its cache stores the video.
proof fn lemma_first_holding(m: &DemandModel, a: &Allocation, r: Request, k: int)
    requires
        k >= 0,
    ensures
        first_holding_from(m, a, r, k) matches Some(j) ==> {
            let conns = m.endpoints@[r.endpoint as int].connections@;
            &&& k <= j < conns.len()
            &&& a.holds(conns[j].cache as int, r.video)
        },
    decreases m.endpoints@[r.endpoint as int].connections@.len() - k,
{
    let conns = m.endpoints@[r.endpoint as int].connections@;
    if k < conns.len() && !a.holds(conns[k].cache as int, r.video) {
        lemma_first_holding(m, a, r, k + 1);
    }
}

/// Where `b` keeps every placement of `a`, the search from `k` finds a link
/// in `b` no later than in `a`.
proof fn lemma_first_holding_extends(
    m: &DemandModel,
    a: &Allocation,
    b: &Allocation,
    r: Request,
    k: int,
)
    requires
        m.wf(),
        a.wf(m),
        b.extends(a),
        m.request_ok(r),
        k >= 0,
    ensures
        first_holding_from(m, a, r, k) matches Some(ja) ==> (first_holding_from(
            m,
            b,
            r,
            k,
        ) matches Some(jb) && jb <= ja),
    decreases m.endpoints@[r.endpoint as int].connections@.len() - k,
{
    let conns = m.endpoints@[r.endpoint as int].connections@;
    assert(m.endpoints@[r.endpoint as int].wf(m.cache_count as nat));
    if k < conns.len() {
        if a.holds(conns[k].cache as int, r.video) {
            assert(b.holds(conns[k].cache as int, r.video));
        } else {
            lemma_first_holding_extends(m, a, b, r, k + 1);
            lemma_first_holding(m, a, r, k + 1);
        }
    }
}

/// Latency saved is never negative, and placing more videos, removing none,
/// never lowers it.
pub proof fn lemma_saved_monotone(m: &DemandModel, a: &Allocation, b: &Allocation)
    requires
        m.wf(),
        a.wf(m),
        b.wf(m),
        b.extends(a),
    ensures
        0 <= total_saved(m, a) <= total_saved(m, b),
{
    lemma_saved_upto_monotone(m, a, b, m.requests@.len() as int);
}

proof fn lemma_saved_upto_monotone(m: &DemandModel, a: &Allocation, b: &Allocation, n: int)
    requires
        m.wf(),
        a.wf(m),
        b.wf(m),
        b.extends(a),
        n <= m.requests@.len(),
    ensures
        0 <= saved_upto(m, a, n) <= saved_upto(m, b, n),
    decreases n,
{
    if n > 0 {
        lemma_saved_upto_monotone(m, a, b, n - 1);
        let r = m.requests@[n - 1];
        assert(m.request_ok(r));
        let e = m.endpoints@[r.endpoint as int];
        assert(e.wf(m.cache_count as nat));
        lemma_first_holding(m, a, r, 0);
        lemma_first_holding(m, b, r, 0);
        lemma_first_holding_extends(m, a, b, r, 0);
        match first_holding_from(m, a, r, 0) {
            Some(ja) => {
                let jb = first_holding_from(m, b, r, 0)->0;
                let la = e.connections@[ja].latency;
                let lb = e.connections@[jb].latency;
                if jb < ja {
                    assert(lb <= la);
                }
                assert(0 <= (e.latency - la) * r.amount <= (e.latency - lb) * r.amount) by (
                nonlinear_arith)
                    requires
                        lb <= la <= e.latency,
                        r.amount >= 0,
                ;
            },
            None => {
                match first_holding_from(m, b, r, 0) {
                    Some(jb) => {
                        let lb = e.connections@[jb].latency;
                        assert(0 <= (e.latency - lb) * r.amount) by (nonlinear_arith)
                            requires
                                lb <= e.latency,
                                r.amount >= 0,
                        ;
                    },
                    None => {},
                }
            },
        }
    }
}

} // verus!
