//! The data-parallel scans, run on rayon's thread pool. Each closure handed to
//! rayon calls one verified function of this library or reads a field.

use vstd::prelude::*;
use rayon::iter::{IndexedParallelIterator, IntoParallelRefIterator, ParallelIterator};
use crate::model::DemandModel;
use crate::allocation::Allocation;
use crate::scoring::{
    Candidate,
    step_candidate,
    step_candidate_for,
    unit_candidates,
    unit_candidates_for,
};

verus! {

/// The score-once candidates of the first `n` requests, request by request.
pub open spec fn unit_candidates_upto(m: &DemandModel, n: int) -> Seq<Candidate>
    decreases n,
{
    if n <= 0 {
        Seq::empty()
    } else {
        unit_candidates_upto(m, n - 1) + unit_candidates(m, m.requests@[n - 1])
    }
}

/// Candidate `i` ranks no lower than candidate `j`: a larger benefit first,
/// then the earlier position.
pub open spec fn outranks(s: Seq<Candidate>, i: int, j: int) -> bool {
    s[i].benefit > s[j].benefit || (s[i].benefit == s[j].benefit && i <= j)
}

/// Sort key of candidate `c` at `position`: ascending keys give descending
/// benefit, ties in order of position.
pub fn rank_key(c: &Candidate, position: usize) -> (r: (u64, usize))
    ensures
        r.0 == u64::MAX - c.benefit,
        r.1 == position,
{
    (u64::MAX - c.benefit, position)
}

/// Relies on rayon's `par_iter`, `flat_map_iter` and `collect`: every request
/// is scored by `unit_candidates_for`, and collecting into a `Vec` keeps the
/// requests' order and, within one, the order of the nested items.
#[verifier::external_body]
pub(crate) fn collect_unit_candidates(m: &DemandModel) -> (r: Vec<Candidate>)
    requires
        m.wf(),
    ensures
        r@ == unit_candidates_upto(m, m.requests@.len() as int),
{
    m.requests.par_iter().flat_map_iter(|r| unit_candidates_for(m, r)).collect()
}

/// Relies on rayon's `par_iter`, `filter_map` and `max_by_key`: the result is
/// one of the candidates offered, with the largest benefit among them, and
/// `None` only when no request offers one.
#[verifier::external_body]
pub(crate) fn best_step_candidate(m: &DemandModel, a: &Allocation) -> (r: Option<Candidate>)
    requires
        m.wf(),
        a.wf(m),
    ensures
        r is None <==> forall|i: int|
            0 <= i < m.requests@.len() ==> (#[trigger] step_candidate(
                m,
                a,
                m.requests@[i],
            )) is None,
        r matches Some(c) ==> {
            &&& exists|i: int|
                0 <= i < m.requests@.len() && #[trigger] step_candidate(m, a, m.requests@[i])
                    == Some(c)
            &&& forall|i: int|
                0 <= i < m.requests@.len() && (#[trigger] step_candidate(
                    m,
                    a,
                    m.requests@[i],
                )) is Some ==> step_candidate(m, a, m.requests@[i])->0.benefit <= c.benefit
        },
{
    m.requests.par_iter().filter_map(|r| step_candidate_for(m, a, r)).max_by_key(|c| c.benefit)
}

/// Relies on rayon's `par_iter`, `enumerate`, `filter` and `min_by_key`: among
/// the positions whose candidate `is_admissible` accepts, the one with the
/// least `rank_key`, compared as tuples; the keys are distinct, so that one
/// is unique.
#[verifier::external_body]
pub(crate) fn best_admissible(m: &DemandModel, a: &Allocation, ranked: &Vec<Candidate>) -> (r:
    Option<usize>)
    requires
        m.wf(),
        a.wf(m),
        forall|i: int|
            0 <= i < ranked@.len() ==> (#[trigger] ranked@[i]).cache < m.cache_count
                && ranked@[i].video < m.video_count(),
    ensures
        r matches Some(i) ==> {
            &&& i < ranked@.len()
            &&& a.admits(m, ranked@[i as int].cache as int, ranked@[i as int].video)
            &&& forall|j: int|
                0 <= j < ranked@.len() && a.admits(
                    m,
                    (#[trigger] ranked@[j]).cache as int,
                    ranked@[j].video,
                ) ==> outranks(ranked@, i as int, j)
        },
        r is None ==> forall|j: int|
            0 <= j < ranked@.len() ==> !a.admits(
                m,
                (#[trigger] ranked@[j]).cache as int,
                ranked@[j].video,
            ),
{
    ranked.par_iter().enumerate().filter(|&(_, c)| a.is_admissible(m, c.cache, c.video)).min_by_key(
        |&(i, c)| rank_key(c, i),
    ).map(|(i, _)| i)
}

} // verus!
