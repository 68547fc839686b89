//! The candidate scorer: what placing a requested video on a reachable cache
//! is worth, under either benefit formula.

use vstd::prelude::*;
use crate::model::{DemandModel, Request};
use crate::allocation::Allocation;

verus! {

/// A prospective placement of `video` on `cache`, with its benefit.
#[derive(Clone, Copy, Debug, PartialEq, Eq, Structural)]
pub struct Candidate {
    pub cache: usize,
    pub video: usize,
    pub benefit: u64,
}

/// Latency saved for the whole volume of `r` when it is served over a link of
/// latency `link` instead of by the datacenter.
pub open spec fn raw_benefit(m: &DemandModel, r: Request, link: u32) -> int {
    (m.endpoints@[r.endpoint as int].latency - link) * r.amount
}

/// Some cache linked to the request's endpoint already stores its video.
pub open spec fn served(m: &DemandModel, a: &Allocation, r: Request) -> bool {
    let conns = m.endpoints@[r.endpoint as int].connections@;
    exists|k: int| 0 <= k < conns.len() && a.holds(#[trigger] conns[k].cache as int, r.video)
}

/// The first link, from position `k` on, whose cache has room for the video.
pub open spec fn first_fitting_from(m: &DemandModel, a: &Allocation, r: Request, k: int) -> Option<
    int,
>
    decreases m.endpoints@[r.endpoint as int].connections@.len() - k,
{
    let conns = m.endpoints@[r.endpoint as int].connections@;
    if k < 0 || k >= conns.len() {
        None
    } else if a.usage@[conns[k].cache as int] + m.size_of(r.video as int) <= m.capacity {
        Some(k)
    } else {
        first_fitting_from(m, a, r, k + 1)
    }
}

/// The candidate of the recompute-each-step strategy for request `r`: none if
/// the request is already served; else the fastest link whose cache has room,
/// valued by the raw-latency formula.
pub open spec fn step_candidate(m: &DemandModel, a: &Allocation, r: Request) -> Option<Candidate> {
    if served(m, a, r) {
        None
    } else {
        match first_fitting_from(m, a, r, 0) {
            None => None,
            Some(k) => {
                let conn = m.endpoints@[r.endpoint as int].connections@[k];
                Some(
                    Candidate {
                        cache: conn.cache,
                        video: r.video,
                        benefit: raw_benefit(m, r, conn.latency) as u64,
                    },
                )
            },
        }
    }
}

/// The candidates of the score-once strategy for request `r`: one per linked
/// cache, valued by the per-unit-size formula; none if the video is larger
/// than a cache.
pub open spec fn unit_candidates(m: &DemandModel, r: Request) -> Seq<Candidate> {
    let e = m.endpoints@[r.endpoint as int];
    if m.sizes@[r.video as int] > m.capacity {
        Seq::empty()
    } else {
        Seq::new(
            e.connections@.len(),
            |k: int|
                Candidate {
                    cache: e.connections@[k].cache,
                    video: r.video,
                    benefit: (raw_benefit(m, r, e.connections@[k].latency) / m.size_of(
                        r.video as int,
                    )) as u64,
                },
        )
    }
}

/// `(d - l) * a` for `l <= d` fits in 64 bits.
proof fn lemma_benefit_fits(d: u32, l: u32, a: u32)
    requires
        l <= d,
    ensures
        0 <= (d - l) * a <= u64::MAX,
{
    assert(0 <= (d - l) * a <= 0xffff_ffffu64 * 0xffff_ffffu64) by (nonlinear_arith)
        requires
            l <= d,
            d <= 0xffff_ffff,
            a <= 0xffff_ffff,
    ;
}

/// Whether a cache linked to the request's endpoint already stores its video.
pub fn is_served(m: &DemandModel, a: &Allocation, r: &Request) -> (res: bool)
    requires
        m.wf(),
        a.wf(m),
        m.request_ok(*r),
    ensures
        res == served(m, a, *r),
{
    let conns = &m.endpoints[r.endpoint].connections;
    proof {
        assert(m.endpoints@[r.endpoint as int].wf(m.cache_count as nat));
    }
    let mut k: usize = 0;
    while k < conns.len()
        invariant
            m.wf(),
            a.wf(m),
            m.request_ok(*r),
            conns@ == m.endpoints@[r.endpoint as int].connections@,
            m.endpoints@[r.endpoint as int].wf(m.cache_count as nat),
            k <= conns@.len(),
            forall|j: int| 0 <= j < k ==> !a.holds(#[trigger] conns@[j].cache as int, r.video),
        decreases conns.len() - k,
    {
        if a.is_stored(conns[k].cache, r.video) {
            return true;
        }
        k += 1;
    }
    false
}

/// The candidate that the recompute-each-step strategy offers for `r`.
pub fn step_candidate_for(m: &DemandModel, a: &Allocation, r: &Request) -> (res: Option<Candidate>)
    requires
        m.wf(),
        a.wf(m),
        m.request_ok(*r),
    ensures
        res == step_candidate(m, a, *r),
{
    if is_served(m, a, r) {
        return None;
    }
    let e = &m.endpoints[r.endpoint];
    proof {
        assert(e.wf(m.cache_count as nat));
    }
    let mut k: usize = 0;
    while k < e.connections.len()
        invariant
            m.wf(),
            a.wf(m),
            m.request_ok(*r),
            *e == m.endpoints@[r.endpoint as int],
            e.wf(m.cache_count as nat),
            k <= e.connections@.len(),
            !served(m, a, *r),
            first_fitting_from(m, a, *r, 0) == first_fitting_from(m, a, *r, k as int),
        decreases e.connections.len() - k,
    {
        let conn = e.connections[k];
        if a.fits(m, conn.cache, r.video) {
            proof {
                lemma_benefit_fits(e.latency, conn.latency, r.amount);
            }
            let benefit = (e.latency - conn.latency) as u64 * r.amount as u64;
            proof {
                assert(first_fitting_from(m, a, *r, k as int) == Some(k as int));
                assert(benefit == raw_benefit(m, *r, conn.latency));
            }
            return Some(Candidate { cache: conn.cache, video: r.video, benefit });
        }
        k += 1;
    }
    None
}

/// The candidates that the score-once strategy offers for `r`.
pub fn unit_candidates_for(m: &DemandModel, r: &Request) -> (res: Vec<Candidate>)
    requires
        m.wf(),
        m.request_ok(*r),
    ensures
        res@ == unit_candidates(m, *r),
{
    let mut out: Vec<Candidate> = Vec::new();
    let size = m.sizes[r.video];
    if size > m.capacity {
        proof {
            assert(out@ =~= unit_candidates(m, *r));
        }
        return out;
    }
    let e = &m.endpoints[r.endpoint];
    proof {
        assert(e.wf(m.cache_count as nat));
        assert(m.sizes@[r.video as int] > 0);
    }
    let mut k: usize = 0;
    while k < e.connections.len()
        invariant
            m.wf(),
            m.request_ok(*r),
            *e == m.endpoints@[r.endpoint as int],
            e.wf(m.cache_count as nat),
            size == m.sizes@[r.video as int],
            0 < size <= m.capacity,
            k <= e.connections@.len(),
            out@ =~= unit_candidates(m, *r).take(k as int),
        decreases e.connections.len() - k,
    {
        let conn = e.connections[k];
        proof {
            lemma_benefit_fits(e.latency, conn.latency, r.amount);
        }
        let benefit = (e.latency - conn.latency) as u64 * r.amount as u64 / size as u64;
        out.push(Candidate { cache: conn.cache, video: r.video, benefit });
        k += 1;
        proof {
            assert(out@ =~= unit_candidates(m, *r).take(k as int));
        }
    }
    proof {
        assert(unit_candidates(m, *r).take(k as int) =~= unit_candidates(m, *r));
    }
    out
}

} // verus!
