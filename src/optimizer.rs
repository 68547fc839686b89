//! The greedy optimizer: places one admissible candidate per step until none
//! is left, under one of two scoring strategies.

use vstd::prelude::*;
use crate::model::DemandModel;
use crate::allocation::{Allocation, placed_count, total_usage, lemma_total_usage_bound};
use crate::scoring::{Candidate, first_fitting_from, step_candidate, unit_candidates};
use crate::aggregate::{capped, has_key, key_total, same_key, seen_before, sum_by_key};
use crate::parallel::{
    best_admissible,
    best_step_candidate,
    collect_unit_candidates,
    outranks,
    unit_candidates_upto,
};

verus! {

/// Some request asks for video `v` from an endpoint linked to cache `c`.
pub open spec fn useful(m: &DemandModel, c: usize, v: usize) -> bool {
    exists|i: int, k: int|
        0 <= i < m.requests@.len() && 0 <= k < m.endpoints@[m.requests@[i].endpoint as int].connections@.len()
            && (#[trigger] m.requests@[i]).video == v && (#[trigger] m.endpoints@[m.requests@[i].endpoint as int].connections@[k]).cache == c
}

/// How candidates are scored and picked.
#[derive(Clone, Copy, Debug, PartialEq, Eq, Structural)]
pub enum Strategy {
    /// Every step rescores all requests against the current allocation and
    /// takes the single best raw-latency candidate.
    RecomputeEachStep,
    /// Per-unit-size benefits are summed per (cache, video) once, before any
    /// placement; every step takes the best-ranked placement that is still
    /// admissible. Scores are not revised after a placement.
    ScoreOnce,
}

/// Size of the smallest video; zero when there is none.
pub open spec fn min_size(sizes: Seq<u32>) -> int
    decreases sizes.len(),
{
    if sizes.len() == 0 {
        0
    } else if sizes.len() == 1 {
        sizes[0] as int
    } else {
        let rest = min_size(sizes.drop_last());
        if sizes.last() < rest {
            sizes.last() as int
        } else {
            rest
        }
    }
}

/// All score-once candidates of the model, request by request.
pub open spec fn all_unit_candidates(m: &DemandModel) -> Seq<Candidate> {
    unit_candidates_upto(m, m.requests@.len() as int)
}

/// `ranked` holds each placement that some request would gain from exactly
/// once, with the sum of its per-unit-size benefits, in the order in which
/// the placements first come up.
pub open spec fn ranking_of(m: &DemandModel, ranked: Seq<Candidate>) -> bool {
    let all = all_unit_candidates(m);
    &&& forall|j: int, k: int|
        0 <= j < k < ranked.len() ==> !same_key(#[trigger] ranked[j], #[trigger] ranked[k])
    &&& forall|j: int, k: int|
        0 <= j < k < ranked.len() ==> seen_before(
            all,
            (#[trigger] ranked[j]).cache,
            ranked[j].video,
            (#[trigger] ranked[k]).cache,
            ranked[k].video,
        )
    &&& forall|j: int|
        0 <= j < ranked.len() ==> {
            &&& has_key(all, (#[trigger] ranked[j]).cache, ranked[j].video)
            &&& ranked[j].benefit == capped(key_total(all, ranked[j].cache, ranked[j].video))
            &&& ranked[j].cache < m.cache_count
            &&& ranked[j].video < m.video_count()
        }
    &&& forall|i: int|
        0 <= i < all.len() ==> has_key(ranked, (#[trigger] all[i]).cache, all[i].video)
}

/// No step is left: under `RecomputeEachStep` no request offers a candidate;
/// under `ScoreOnce` no placement that a request would gain from is
/// admissible.
pub open spec fn exhausted(m: &DemandModel, a: &Allocation, strategy: Strategy) -> bool {
    match strategy {
        Strategy::RecomputeEachStep => forall|i: int|
            0 <= i < m.requests@.len() ==> (#[trigger] step_candidate(
                m,
                a,
                m.requests@[i],
            )) is None,
        Strategy::ScoreOnce => forall|i: int, k: int|
            0 <= i < m.requests@.len() && 0 <= k < unit_candidates(m, m.requests@[i]).len()
                ==> !a.admits(
                m,
                (#[trigger] unit_candidates(m, m.requests@[i])[k]).cache as int,
                unit_candidates(m, m.requests@[i])[k].video,
            ),
    }
}

/// The strategy, with the ranking that `ScoreOnce` computes up front.
#[derive(Debug)]
pub struct Optimizer {
    pub strategy: Strategy,
    pub ranked: Vec<Candidate>,
}

impl Optimizer {
    pub open spec fn wf(&self, m: &DemandModel) -> bool {
        self.strategy == Strategy::ScoreOnce ==> ranking_of(m, self.ranked@)
    }

    /// `c` is the placement that a step takes from allocation `before`: an
    /// admissible placement that a request would gain from; under
    /// `RecomputeEachStep` a request's candidate with the largest benefit,
    /// under `ScoreOnce` the best-ranked admissible entry.
    pub open spec fn picks(&self, m: &DemandModel, before: Allocation, c: Candidate) -> bool {
        &&& before.admits(m, c.cache as int, c.video)
        &&& useful(m, c.cache, c.video)
        &&& self.strategy == Strategy::RecomputeEachStep ==> {
            &&& exists|i: int|
                0 <= i < m.requests@.len() && #[trigger] step_candidate(
                    m,
                    &before,
                    m.requests@[i],
                ) == Some(c)
            &&& forall|i: int|
                0 <= i < m.requests@.len() && (#[trigger] step_candidate(
                    m,
                    &before,
                    m.requests@[i],
                )) is Some ==> step_candidate(m, &before, m.requests@[i])->0.benefit <= c.benefit
        }
        &&& self.strategy == Strategy::ScoreOnce ==> exists|i: int|
            0 <= i < self.ranked@.len() && #[trigger] self.ranked@[i] == c && forall|j: int|
                0 <= j < self.ranked@.len() && before.admits(
                    m,
                    (#[trigger] self.ranked@[j]).cache as int,
                    self.ranked@[j].video,
                ) ==> outranks(self.ranked@, i, j)
    }

    /// Prepares the strategy; for `ScoreOnce`, scores every request and sums
    /// the benefits per placement.
    pub fn new(m: &DemandModel, strategy: Strategy) -> (r: Optimizer)
        requires
            m.wf(),
        ensures
            r.wf(m),
            r.strategy == strategy,
    {
        match strategy {
            Strategy::RecomputeEachStep => Optimizer { strategy, ranked: Vec::new() },
            Strategy::ScoreOnce => {
                let all = collect_unit_candidates(m);
                proof {
                    lemma_upto_bounds(m, m.requests@.len() as int);
                }
                let ranked = sum_by_key(&all, m.sizes.len());
                Optimizer { strategy, ranked }
            },
        }
    }

    /// Places the next candidate, if any; the allocation is left unchanged
    /// exactly when no step is left.
    pub fn step(&self, m: &DemandModel, a: &mut Allocation) -> (placed: Option<Candidate>)
        requires
            m.wf(),
            self.wf(m),
            old(a).wf(m),
        ensures
            final(a).wf(m),
            final(a).extends(old(a)),
            placed is None ==> *final(a) == *old(a) && exhausted(m, final(a), self.strategy),
            placed matches Some(c) ==> {
                &&& old(a).admits(m, c.cache as int, c.video)
                &&& useful(m, c.cache, c.video)
                &&& placed_count(final(a).stored@) == placed_count(old(a).stored@) + 1
                &&& final(a).placements() == old(a).placements().insert((c.cache, c.video))
                &&& total_usage(final(a).usage@) == total_usage(old(a).usage@) + m.size_of(
                    c.video as int,
                )
            },
            placed matches Some(c) ==> self.picks(m, *old(a), c),
    {
        match self.strategy {
            Strategy::RecomputeEachStep => {
                match best_step_candidate(m, a) {
                    None => None,
                    Some(c) => {
                        proof {
                            let i = choose|i: int|
                                0 <= i < m.requests@.len() && #[trigger] step_candidate(
                                    m,
                                    a,
                                    m.requests@[i],
                                ) == Some(c);
                            lemma_step_candidate_admissible(m, a, m.requests@[i]);
                            lemma_first_fitting(m, a, m.requests@[i], 0);
                            assert(m.request_ok(m.requests@[i]));
                            let k = first_fitting_from(m, a, m.requests@[i], 0)->0;
                            assert(m.requests@[i].video == c.video);
                            assert(m.endpoints@[m.requests@[i].endpoint as int].connections@[k].cache
                                == c.cache);
                        }
                        a.insert(m, c.cache, c.video);
                        Some(c)
                    },
                }
            },
            Strategy::ScoreOnce => {
                match best_admissible(m, a, &self.ranked) {
                    None => {
                        proof {
                            self.lemma_exhausted(m, a);
                        }
                        None
                    },
                    Some(i) => {
                        let c = self.ranked[i];
                        proof {
                            let all = all_unit_candidates(m);
                            let p = choose|p: int|
                                0 <= p < all.len() && (#[trigger] all[p]).cache == c.cache
                                    && all[p].video == c.video;
                            lemma_upto_origin(m, m.requests@.len() as int, p);
                        }
                        a.insert(m, c.cache, c.video);
                        Some(c)
                    },
                }
            },
        }
    }

    proof fn lemma_exhausted(&self, m: &DemandModel, a: &Allocation)
        requires
            m.wf(),
            self.wf(m),
            a.wf(m),
            self.strategy == Strategy::ScoreOnce,
            forall|j: int|
                0 <= j < self.ranked@.len() ==> !a.admits(
                    m,
                    (#[trigger] self.ranked@[j]).cache as int,
                    self.ranked@[j].video,
                ),
        ensures
            exhausted(m, a, self.strategy),
    {
        let n = m.requests@.len() as int;
        assert forall|i: int, k: int|
            0 <= i < n && 0 <= k < unit_candidates(m, m.requests@[i]).len() implies !a.admits(
            m,
            (#[trigger] unit_candidates(m, m.requests@[i])[k]).cache as int,
            unit_candidates(m, m.requests@[i])[k].video,
        ) by {
            let x = unit_candidates(m, m.requests@[i])[k];
            lemma_upto_has(m, n, i, k);
            let p = choose|p: int|
                0 <= p < all_unit_candidates(m).len() && (#[trigger] all_unit_candidates(m)[p]).cache
                    == x.cache && all_unit_candidates(m)[p].video == x.video;
            assert(has_key(self.ranked@, all_unit_candidates(m)[p].cache, all_unit_candidates(m)[p].video));
            let j = choose|j: int|
                0 <= j < self.ranked@.len() && (#[trigger] self.ranked@[j]).cache == x.cache
                    && self.ranked@[j].video == x.video;
        }
    }

    /// Steps until none is left. Placements only accumulate, and the number of
    /// steps times the smallest video size is within the total capacity.
    pub fn run(&self, m: &DemandModel, a: &mut Allocation) -> (steps: u128)
        requires
            m.wf(),
            self.wf(m),
            old(a).wf(m),
        ensures
            final(a).wf(m),
            final(a).extends(old(a)),
            exhausted(m, final(a), self.strategy),
            steps * min_size(m.sizes@) <= total_usage(final(a).usage@) - total_usage(
                old(a).usage@,
            ),
            steps * min_size(m.sizes@) <= m.cache_count * m.capacity,
            placed_count(final(a).stored@) == placed_count(old(a).stored@) + steps,
            forall|c: int, v: usize|
                0 <= c < m.cache_count && #[trigger] final(a).holds(c, v) && !old(a).holds(c, v)
                    ==> useful(m, c as usize, v),
            exists|states: Seq<Allocation>, chosen: Seq<Candidate>|
                {
                    &&& states.len() == steps + 1
                    &&& chosen.len() == steps
                    &&& states[0] == *old(a)
                    &&& states[steps as int] == *final(a)
                    &&& forall|t: int|
                        0 <= t < steps ==> {
                            &&& self.picks(m, states[t], #[trigger] chosen[t])
                            &&& states[t + 1].placements() == states[t].placements().insert(
                                (chosen[t].cache, chosen[t].video),
                            )
                        }
                },
    {
        let mut steps: u128 = 0;
        let ghost mut states: Seq<Allocation> = seq![*a];
        let ghost mut chosen: Seq<Candidate> = Seq::empty();
        let ghost start = *a;
        proof {
            lemma_usage_bound(m, a);
        }
        loop
            invariant
                m.wf(),
                self.wf(m),
                a.wf(m),
                a.extends(&start),
                start == *old(a),
                start.wf(m),
                0 <= total_usage(start.usage@),
                total_usage(a.usage@) <= m.cache_count * m.capacity,
                steps <= total_usage(a.usage@) - total_usage(start.usage@),
                steps * min_size(m.sizes@) <= total_usage(a.usage@) - total_usage(start.usage@),
                placed_count(a.stored@) == placed_count(start.stored@) + steps,
                forall|c: int, v: usize|
                    0 <= c < m.cache_count && #[trigger] a.holds(c, v) && !start.holds(c, v)
                        ==> useful(m, c as usize, v),
                states.len() == steps + 1,
                chosen.len() == steps,
                states[0] == start,
                states[steps as int] == *a,
                forall|t: int|
                    0 <= t < steps ==> {
                        &&& self.picks(m, states[t], #[trigger] chosen[t])
                        &&& states[t + 1].placements() == states[t].placements().insert(
                            (chosen[t].cache, chosen[t].video),
                        )
                    },
            ensures
                a.wf(m),
                a.extends(&start),
                exhausted(m, a, self.strategy),
                steps * min_size(m.sizes@) <= total_usage(a.usage@) - total_usage(start.usage@),
                total_usage(a.usage@) <= m.cache_count * m.capacity,
                placed_count(a.stored@) == placed_count(start.stored@) + steps,
                forall|c: int, v: usize|
                    0 <= c < m.cache_count && #[trigger] a.holds(c, v) && !start.holds(c, v)
                        ==> useful(m, c as usize, v),
                states.len() == steps + 1,
                chosen.len() == steps,
                states[0] == start,
                states[steps as int] == *a,
                forall|t: int|
                    0 <= t < steps ==> {
                        &&& self.picks(m, states[t], #[trigger] chosen[t])
                        &&& states[t + 1].placements() == states[t].placements().insert(
                            (chosen[t].cache, chosen[t].video),
                        )
                    },
            decreases m.cache_count * m.capacity - total_usage(a.usage@),
        {
            let ghost before = *a;
            match self.step(m, a) {
                None => {
                    proof {
                        assert(states[steps as int] == *a);
                    }
                    return steps;
                },
                Some(c) => {
                    proof {
                        lemma_usage_bound(m, a);
                        lemma_min_size(m.sizes@, c.video as int);
                        assert(m.sizes@[c.video as int] > 0);
                        assert(forall|d: int, v: usize|
                            0 <= d < start.stored@.len() && #[trigger] start.holds(d, v)
                                ==> before.holds(d, v));
                        assert((steps + 1) * min_size(m.sizes@) == steps * min_size(m.sizes@)
                            + min_size(m.sizes@)) by (nonlinear_arith);
                        assert forall|d: int, v: usize|
                            0 <= d < m.cache_count && #[trigger] a.holds(d, v) && !start.holds(d, v)
                                implies useful(m, d as usize, v) by {
                            if !before.holds(d, v) {
                                assert(a.placements().contains((d as usize, v)));
                                assert(before.placements().insert((c.cache, c.video)).contains(
                                    (d as usize, v),
                                ));
                                if (d as usize, v) != (c.cache, c.video) {
                                    assert(before.placements().contains((d as usize, v)));
                                }
                            }
                        }
                        assert(m.cache_count * m.capacity <= usize::MAX * u32::MAX) by (
                        nonlinear_arith)
                            requires
                                m.cache_count <= usize::MAX,
                                m.capacity <= u32::MAX,
                        ;
                    }
                    proof {
                        let old_states = states;
                        let old_chosen = chosen;
                        states = states.push(*a);
                        chosen = chosen.push(c);
                        assert forall|t: int| 0 <= t < steps + 1 implies {
                            &&& self.picks(m, states[t], #[trigger] chosen[t])
                            &&& states[t + 1].placements() == states[t].placements().insert(
                                (chosen[t].cache, chosen[t].video),
                            )
                        } by {
                            if t < steps {
                                assert(chosen[t] == old_chosen[t]);
                                assert(states[t] == old_states[t]);
                                assert(states[t + 1] == old_states[t + 1]);
                            }
                        }
                    }
                    steps = steps + 1;
                },
            }
        }
    }
}

/// Places videos greedily from an empty allocation until no step is left:
/// the result is reached from the empty allocation by steps that each take
/// the placement `Optimizer::picks` names.
pub fn optimize(m: &DemandModel, strategy: Strategy) -> (r: Allocation)
    requires
        m.wf(),
    ensures
        r.wf(m),
        exhausted(m, &r, strategy),
        forall|c: int, v: usize| 0 <= c < m.cache_count && #[trigger] r.holds(c, v) ==> useful(
            m,
            c as usize,
            v,
        ),
        exists|opt: Optimizer, states: Seq<Allocation>, chosen: Seq<Candidate>|
            {
                &&& opt.wf(m)
                &&& opt.strategy == strategy
                &&& states.len() == chosen.len() + 1
                &&& forall|c: int| 0 <= c < m.cache_count ==> (#[trigger] states[0].stored@[c])@.len() == 0
                &&& states[chosen.len() as int] == r
                &&& forall|t: int|
                    0 <= t < chosen.len() ==> {
                        &&& opt.picks(m, states[t], #[trigger] chosen[t])
                        &&& states[t + 1].placements() == states[t].placements().insert(
                            (chosen[t].cache, chosen[t].video),
                        )
                    }
            },
{
    let opt = Optimizer::new(m, strategy);
    let mut a = Allocation::empty(m);
    let ghost start = a;
    let _ = opt.run(m, &mut a);
    proof {
        assert forall|c: int, v: usize| 0 <= c < m.cache_count && #[trigger] a.holds(c, v) implies useful(
            m,
            c as usize,
            v,
        ) by {
            assert(start.stored@[c]@.len() == 0);
            assert(!start.holds(c, v));
        }
    }
    a
}

/// The smallest size is at most any size.
proof fn lemma_min_size(sizes: Seq<u32>, v: int)
    requires
        0 <= v < sizes.len(),
    ensures
        min_size(sizes) <= sizes[v],
        min_size(sizes) >= 0,
    decreases sizes.len(),
{
    if sizes.len() > 1 {
        if v < sizes.len() - 1 {
            lemma_min_size(sizes.drop_last(), v);
        } else {
            lemma_min_size(sizes.drop_last(), 0);
        }
    }
}

/// The total usage is within the total capacity.
proof fn lemma_usage_bound(m: &DemandModel, a: &Allocation)
    requires
        a.wf(m),
    ensures
        0 <= total_usage(a.usage@) <= m.cache_count * m.capacity,
{
    assert forall|i: int| 0 <= i < a.usage@.len() implies #[trigger] a.usage@[i] <= m.capacity by {
        assert(a.stored@[i]@.len() >= 0);
    }
    lemma_total_usage_bound(a.usage@, m.capacity as int);
}

/// A recompute-each-step candidate is an admissible placement.
proof fn lemma_step_candidate_admissible(m: &DemandModel, a: &Allocation, r: crate::model::Request)
    requires
        m.wf(),
        a.wf(m),
        m.request_ok(r),
        step_candidate(m, a, r) is Some,
    ensures
        ({
            let c = step_candidate(m, a, r)->0;
            &&& c.cache < m.cache_count
            &&& c.video == r.video
            &&& a.admits(m, c.cache as int, c.video)
        }),
{
    let conns = m.endpoints@[r.endpoint as int].connections@;
    assert(m.endpoints@[r.endpoint as int].wf(m.cache_count as nat));
    lemma_first_fitting(m, a, r, 0);
    let k = first_fitting_from(m, a, r, 0)->0;
    assert(conns[k].cache < m.cache_count);
    if a.holds(conns[k].cache as int, r.video) {
        assert(crate::scoring::served(m, a, r));
    }
}

/// A link found by the search is in range and has room for the video.
proof fn lemma_first_fitting(m: &DemandModel, a: &Allocation, r: crate::model::Request, k: int)
    requires
        k >= 0,
    ensures
        first_fitting_from(m, a, r, k) matches Some(j) ==> {
            let conns = m.endpoints@[r.endpoint as int].connections@;
            &&& k <= j < conns.len()
            &&& a.usage@[conns[j].cache as int] + m.size_of(r.video as int) <= m.capacity
        },
    decreases m.endpoints@[r.endpoint as int].connections@.len() - k,
{
    let conns = m.endpoints@[r.endpoint as int].connections@;
    if k < conns.len() && !(a.usage@[conns[k].cache as int] + m.size_of(r.video as int)
        <= m.capacity) {
        lemma_first_fitting(m, a, r, k + 1);
    }
}

/// Every score-once candidate names an existing cache and video.
proof fn lemma_upto_bounds(m: &DemandModel, n: int)
    requires
        m.wf(),
        n <= m.requests@.len(),
    ensures
        forall|p: int|
            0 <= p < unit_candidates_upto(m, n).len() ==> {
                &&& (#[trigger] unit_candidates_upto(m, n)[p]).cache < m.cache_count
                &&& unit_candidates_upto(m, n)[p].video < m.video_count()
            },
    decreases n,
{
    if n > 0 {
        lemma_upto_bounds(m, n - 1);
        let r = m.requests@[n - 1];
        assert(m.request_ok(r));
        assert(m.endpoints@[r.endpoint as int].wf(m.cache_count as nat));
        let prev = unit_candidates_upto(m, n - 1);
        let all = unit_candidates_upto(m, n);
        assert forall|p: int| 0 <= p < all.len() implies {
            &&& (#[trigger] all[p]).cache < m.cache_count
            &&& all[p].video < m.video_count()
        } by {
            if p < prev.len() {
                assert(all[p] == prev[p]);
            } else {
                let e = m.endpoints@[r.endpoint as int];
                assert(all[p] == unit_candidates(m, r)[p - prev.len()]);
                assert(e.connections@[p - prev.len()].cache < m.cache_count);
            }
        }
    }
}

/// Every score-once candidate comes from a request and a link of its
/// endpoint.
proof fn lemma_upto_origin(m: &DemandModel, n: int, p: int)
    requires
        m.wf(),
        n <= m.requests@.len(),
        0 <= p < unit_candidates_upto(m, n).len(),
    ensures
        useful(m, unit_candidates_upto(m, n)[p].cache, unit_candidates_upto(m, n)[p].video),
    decreases n,
{
    if n > 0 {
        let prev = unit_candidates_upto(m, n - 1);
        let all = unit_candidates_upto(m, n);
        if p < prev.len() {
            assert(all[p] == prev[p]);
            lemma_upto_origin(m, n - 1, p);
        } else {
            let r = m.requests@[n - 1];
            let k = p - prev.len();
            assert(all[p] == unit_candidates(m, r)[k]);
            assert(m.requests@[n - 1].video == all[p].video);
            assert(m.endpoints@[m.requests@[n - 1].endpoint as int].connections@[k].cache
                == all[p].cache);
        }
    }
}

/// Every candidate of the first `n` requests has its key among them.
proof fn lemma_upto_has(m: &DemandModel, n: int, i: int, k: int)
    requires
        0 <= i < n,
        0 <= k < unit_candidates(m, m.requests@[i]).len(),
    ensures
        has_key(
            unit_candidates_upto(m, n),
            unit_candidates(m, m.requests@[i])[k].cache,
            unit_candidates(m, m.requests@[i])[k].video,
        ),
    decreases n,
{
    let all = unit_candidates_upto(m, n);
    let prev = unit_candidates_upto(m, n - 1);
    let x = unit_candidates(m, m.requests@[i])[k];
    if i < n - 1 {
        lemma_upto_has(m, n - 1, i, k);
        let p = choose|p: int|
            0 <= p < prev.len() && (#[trigger] prev[p]).cache == x.cache && prev[p].video
                == x.video;
        assert(all[p] == prev[p]);
    } else {
        assert(all[prev.len() + k] == x);
    }
}

} // verus!
