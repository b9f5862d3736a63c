//! Provider matching, price discovery and route selection.
//!
//! A job is matched against the provider pool: the candidates are the
//! providers that support the job's precision and have spare capacity; each
//! candidate prices the job; the cheapest candidate wins, earlier providers
//! winning ties. A route is then chosen in the lane the priority asks for,
//! by the lowest score, falling back to the best route of any lane.

use vstd::prelude::*;

use crate::common::{JobId, LaneId, SlpId};
use crate::gxf::{GxfJob, GxfJobView, PrecisionLevel};

verus! {

/// A price in micro-tokens.
pub type Price = u64;

/// The outcome of a successful auction.
#[derive(Debug, Clone, PartialEq, Eq)]
pub struct AuctionMatch {
    /// The job that was matched.
    pub job_id: JobId,
    /// The provider that won.
    pub slp_id: SlpId,
    /// The lane of the chosen route.
    pub lane_id: LaneId,
    /// The clearing price.
    pub price: Price,
    /// The node path of the chosen route.
    pub route: Vec<String>,
}

/// The auction counters. They only ever grow; matched and unmatched
/// auctions together never outnumber the auctions run.
#[derive(Debug, Clone, PartialEq, Eq)]
pub struct AuctionStats {
    /// Auctions run.
    pub total_auctions: u64,
    /// Auctions that found a provider.
    pub total_matches: u64,
    /// Auctions that found none.
    pub total_unmatched: u64,
    /// The sum of all clearing prices.
    pub total_volume: u64,
    /// Matches by the job's precision.
    pub matches_by_precision: crate::gxf::PrecisionCounts,
    /// Matches by the chosen route's lane.
    pub matches_by_lane: Vec<(u8, u64)>,
}

/// The statistics invariant: matched and unmatched auctions together
/// never outnumber the auctions run.
pub open spec fn spec_stats_wf(s: AuctionStats) -> bool {
    s.total_matches + s.total_unmatched <= s.total_auctions
}

/// A compute provider in the pool.
#[derive(Debug, Clone, PartialEq, Eq)]
pub struct ComputeProvider {
    /// Provider identity; the primary key of the pool.
    pub slp_id: SlpId,
    /// The precision levels the provider can run.
    pub supported_precisions: Vec<PrecisionLevel>,
    /// Base price per job in micro-tokens.
    pub base_price: Price,
    /// Greatest number of concurrent jobs.
    pub capacity: u32,
    /// Number of jobs currently running.
    pub utilization: u32,
    /// Region tag of the provider.
    pub region: String,
}

/// Whether a provider can take a job: it supports the precision and has
/// spare capacity.
pub open spec fn spec_can_handle(p: ComputeProvider, j: GxfJobView) -> bool {
    &&& p.supported_precisions@.contains(j.precision)
    &&& p.utilization < p.capacity
}

/// The numerator of the precision multiplier, in tenths.
pub open spec fn spec_precision_mult_tenths(p: PrecisionLevel) -> int {
    match p {
        PrecisionLevel::INT8 => 10,
        PrecisionLevel::E5M2 => 12,
        PrecisionLevel::FP8 => 15,
        PrecisionLevel::BF16 => 20,
    }
}

/// The exact price of a job at a provider: the base price plus ten
/// micro-tokens per sequence element, scaled by the precision multiplier,
/// scaled by one plus half the provider's load fraction; every product is
/// floored on division.
pub open spec fn spec_price(p: ComputeProvider, j: GxfJobView) -> int {
    let p0 = p.base_price + 10 * j.kv_cache_seq_len;
    let p1 = (p0 * spec_precision_mult_tenths(j.precision)) / 10;
    (p1 * (2 * p.capacity + p.utilization)) / (2 * p.capacity)
}

/// The price clamped to the 64-bit price range.
pub open spec fn spec_price_clamped(p: ComputeProvider, j: GxfJobView) -> u64 {
    if spec_price(p, j) > u64::MAX {
        u64::MAX
    } else {
        spec_price(p, j) as u64
    }
}

/// The winning provider among the first providers of the pool: the
/// cheapest candidate, the earliest winning ties; `None` while no
/// candidate exists.
pub open spec fn spec_winner(ps: Seq<ComputeProvider>, j: GxfJobView) -> Option<int>
    decreases ps.len(),
{
    if ps.len() == 0 {
        None
    } else {
        let t = ps.len() - 1;
        let rest = spec_winner(ps.drop_last(), j);
        if spec_can_handle(ps[t], j) {
            match rest {
                None => Some(t),
                Some(c) => if spec_price_clamped(ps[t], j) < spec_price_clamped(ps[c], j) {
                    Some(t)
                } else {
                    Some(c)
                },
            }
        } else {
            rest
        }
    }
}

/// The winner is a candidate, no candidate is cheaper, and no earlier
/// candidate is as cheap.
pub proof fn lemma_winner_props(ps: Seq<ComputeProvider>, j: GxfJobView)
    ensures
        spec_winner(ps, j) matches Some(c) ==> {
            &&& 0 <= c < ps.len()
            &&& spec_can_handle(ps[c], j)
            &&& forall|t: int|
                0 <= t < ps.len() && spec_can_handle(#[trigger] ps[t], j) ==> spec_price_clamped(
                    ps[c],
                    j,
                ) <= spec_price_clamped(ps[t], j)
            &&& forall|t: int|
                0 <= t < c && spec_can_handle(#[trigger] ps[t], j) ==> spec_price_clamped(ps[c], j)
                    < spec_price_clamped(ps[t], j)
        },
        spec_winner(ps, j) is None ==> forall|t: int|
            0 <= t < ps.len() ==> !spec_can_handle(#[trigger] ps[t], j),
    decreases ps.len(),
{
    if ps.len() > 0 {
        lemma_winner_props(ps.drop_last(), j);
        assert forall|t: int| 0 <= t < ps.len() - 1 implies ps.drop_last()[t] == ps[t] by {}
    }
}

impl ComputeProvider {
    /// Whether this provider can take the job.
    pub fn can_handle(&self, job: &GxfJob) -> (r: bool)
        ensures
            r == spec_can_handle(*self, job@),
    {
        let n = self.supported_precisions.len();
        let mut t: usize = 0;
        let mut found = false;
        while t < n
            invariant
                n == self.supported_precisions@.len(),
                0 <= t <= n,
                found == exists|u: int|
                    0 <= u < t && self.supported_precisions@[u] == job.precision,
            decreases n - t,
        {
            if self.supported_precisions[t] == job.precision {
                found = true;
            }
            t += 1;
        }
        proof {
            assert(found == self.supported_precisions@.contains(job@.precision));
        }
        if !found {
            return false;
        }
        if self.utilization >= self.capacity {
            return false;
        }
        true
    }

    /// The price of the job at this provider: the exact price where it
    /// fits the 64-bit price range, the greatest price otherwise.
    pub fn calculate_price(&self, job: &GxfJob) -> (r: Price)
        requires
            self.capacity > 0,
        ensures
            r == spec_price_clamped(*self, job@),
    {
        let p0: u128 = self.base_price as u128 + 10u128 * (job.kv_cache_seq_len as u128);
        let m: u128 = match job.precision {
            PrecisionLevel::INT8 => 10,
            PrecisionLevel::E5M2 => 12,
            PrecisionLevel::FP8 => 15,
            PrecisionLevel::BF16 => 20,
        };
        proof {
            assert(p0 * m <= 0xFFFF_FFFF_FFFF_FFFF_FFFFu128 * 20) by (nonlinear_arith)
                requires
                    p0 <= 0xFFFF_FFFF_FFFF_FFFF_FFFFu128,
                    m <= 20,
            ;
        }
        let p1: u128 = (p0 * m) / 10;
        let denom: u128 = 2u128 * (self.capacity as u128);
        let num: u128 = denom + (self.utilization as u128);
        proof {
            assert(p1 * num <= 0x4_0000_0000_0000_0000_0000u128 * 0x3_0000_0000u128)
                by (nonlinear_arith)
                requires
                    p1 <= 0x4_0000_0000_0000_0000_0000u128,
                    num <= 0x3_0000_0000u128,
            ;
        }
        let price: u128 = (p1 * num) / denom;
        if price > u64::MAX as u128 {
            u64::MAX
        } else {
            price as u64
        }
    }
}

/// A route through the network.
#[derive(Debug, Clone, PartialEq, Eq)]
pub struct Route {
    /// Route identifier; the primary key of the route set.
    pub id: String,
    /// The lane the route serves.
    pub lane_id: LaneId,
    /// The node identifiers along the route, at least one.
    pub path: Vec<String>,
    /// Expected latency in milliseconds.
    pub latency_ms: u64,
    /// Cost of the route in micro-tokens.
    pub cost: Price,
}

/// The route score scaled by one million: latency in milliseconds times a
/// thousand plus the cost. Lower is better.
pub open spec fn spec_route_score_micros(r: Route) -> int {
    r.latency_ms * 1000 + r.cost
}

impl Route {
    /// The route score scaled by one million, exactly.
    pub fn score_micros(&self) -> (r: u128)
        ensures
            r == spec_route_score_micros(*self),
    {
        (self.latency_ms as u128) * 1000 + (self.cost as u128)
    }
}

/// The lane a priority prefers: the express lane for high priorities, the
/// bulk lane otherwise.
pub open spec fn spec_primary_lane(priority: u8) -> u8 {
    if priority >= 128 {
        0
    } else {
        1
    }
}

/// The best route among the first routes whose lane `lane` accepts (every
/// lane when `lane` is `None`): the lowest score, the earliest winning
/// ties.
pub open spec fn spec_best_route(rs: Seq<Route>, lane: Option<u8>) -> Option<int>
    decreases rs.len(),
{
    if rs.len() == 0 {
        None
    } else {
        let t = rs.len() - 1;
        let rest = spec_best_route(rs.drop_last(), lane);
        if lane is None || rs[t].lane_id.0 == lane->0 {
            match rest {
                None => Some(t),
                Some(c) => if spec_route_score_micros(rs[t]) < spec_route_score_micros(rs[c]) {
                    Some(t)
                } else {
                    Some(c)
                },
            }
        } else {
            rest
        }
    }
}

/// The chosen route for a priority: the best route of the primary lane,
/// else the best route of any lane, else none.
pub open spec fn spec_route_choice(rs: Seq<Route>, priority: u8) -> Option<int> {
    match spec_best_route(rs, Some(spec_primary_lane(priority))) {
        Some(c) => Some(c),
        None => spec_best_route(rs, None),
    }
}

/// The chosen route lies in the route set; where the primary lane has a
/// route, the choice lies in it and no route of that lane scores lower.
pub proof fn lemma_best_route_props(rs: Seq<Route>, lane: Option<u8>)
    ensures
        spec_best_route(rs, lane) matches Some(c) ==> {
            &&& 0 <= c < rs.len()
            &&& (lane matches Some(l) ==> rs[c].lane_id.0 == l)
            &&& forall|t: int|
                0 <= t < rs.len() && (lane is None || (#[trigger] rs[t]).lane_id.0 == lane->0)
                    ==> spec_route_score_micros(rs[c]) <= spec_route_score_micros(rs[t])
        },
        spec_best_route(rs, lane) is None ==> forall|t: int|
            0 <= t < rs.len() ==> !(lane is None || (#[trigger] rs[t]).lane_id.0 == lane->0),
    decreases rs.len(),
{
    if rs.len() > 0 {
        lemma_best_route_props(rs.drop_last(), lane);
        assert forall|t: int| 0 <= t < rs.len() - 1 implies rs.drop_last()[t] == rs[t] by {}
    }
}

/// Whether two pools carry the same data, provider for provider.
pub open spec fn providers_eqv(a: Seq<ComputeProvider>, b: Seq<ComputeProvider>) -> bool {
    &&& a.len() == b.len()
    &&& forall|t: int| 0 <= t < a.len() ==> crate::persist::provider_eqv(#[trigger] a[t], b[t])
}

/// Whether two route sets carry the same data, route for route.
pub open spec fn routes_eqv(a: Seq<Route>, b: Seq<Route>) -> bool {
    &&& a.len() == b.len()
    &&& forall|t: int| 0 <= t < a.len() ==> crate::persist::route_eqv(#[trigger] a[t], b[t])
}

/// The auction is deterministic: two pools that carry the same data elect
/// the same winner at the same price. In particular an engine reopened
/// from its store decides as the one that wrote it.
pub proof fn lemma_winner_deterministic(a: Seq<ComputeProvider>, b: Seq<ComputeProvider>, j: GxfJobView)
    requires
        providers_eqv(a, b),
    ensures
        spec_winner(a, j) == spec_winner(b, j),
        spec_winner(a, j) matches Some(c) ==> spec_price_clamped(a[c], j) == spec_price_clamped(
            b[c],
            j,
        ),
    decreases a.len(),
{
    if a.len() > 0 {
        assert forall|t: int|
            0 <= t < a.len() - 1 implies crate::persist::provider_eqv(
            #[trigger] a.drop_last()[t],
            b.drop_last()[t],
        ) by {
            assert(a.drop_last()[t] == a[t] && b.drop_last()[t] == b[t]);
            assert(crate::persist::provider_eqv(a[t], b[t]));
        }
        lemma_winner_deterministic(a.drop_last(), b.drop_last(), j);
        let t = a.len() - 1;
        assert(crate::persist::provider_eqv(a[t], b[t]));
        assert(spec_can_handle(a[t], j) == spec_can_handle(b[t], j));
        assert(spec_price_clamped(a[t], j) == spec_price_clamped(b[t], j));
        let w = spec_winner(a.drop_last(), j);
        if w is Some {
            let c = w->0;
            lemma_winner_props(a.drop_last(), j);
            assert(0 <= c < a.len() - 1);
            assert(crate::persist::provider_eqv(a[c], b[c]));
            assert(spec_price_clamped(a[c], j) == spec_price_clamped(b[c], j));
        }
    }
}

/// Route selection is deterministic: two route sets that carry the same
/// data choose the same route.
pub proof fn lemma_route_deterministic(a: Seq<Route>, b: Seq<Route>, lane: Option<u8>)
    requires
        routes_eqv(a, b),
    ensures
        spec_best_route(a, lane) == spec_best_route(b, lane),
    decreases a.len(),
{
    if a.len() > 0 {
        assert forall|t: int|
            0 <= t < a.len() - 1 implies crate::persist::route_eqv(
            #[trigger] a.drop_last()[t],
            b.drop_last()[t],
        ) by {
            assert(a.drop_last()[t] == a[t] && b.drop_last()[t] == b[t]);
            assert(crate::persist::route_eqv(a[t], b[t]));
        }
        lemma_route_deterministic(a.drop_last(), b.drop_last(), lane);
        let t = a.len() - 1;
        assert(crate::persist::route_eqv(a[t], b[t]));
        let w = spec_best_route(a.drop_last(), lane);
        if w is Some {
            let c = w->0;
            lemma_best_route_props(a.drop_last(), lane);
            assert(0 <= c < a.len() - 1);
            assert(crate::persist::route_eqv(a[c], b[c]));
        }
    }
}

/// A pool with no spare capacity elects no winner: once every provider
/// runs at its capacity, further auctions find no match.
pub proof fn lemma_no_spare_capacity_no_winner(ps: Seq<ComputeProvider>, j: GxfJobView)
    requires
        forall|t: int|
            0 <= t < ps.len() ==> (#[trigger] ps[t]).utilization >= ps[t].capacity,
    ensures
        spec_winner(ps, j) is None,
    decreases ps.len(),
{
    if ps.len() > 0 {
        assert forall|t: int|
            0 <= t < ps.len() - 1 implies (#[trigger] ps.drop_last()[t]).utilization
            >= ps.drop_last()[t].capacity by {
            assert(ps.drop_last()[t] == ps[t]);
        }
        lemma_no_spare_capacity_no_winner(ps.drop_last(), j);
    }
}

/// A pool of one provider elects it exactly while it has spare capacity
/// and supports the precision: each accepted auction takes one slot, so a
/// pool of capacity for `k` more jobs accepts exactly `k` of any longer
/// run of auctions before reporting no match.
pub proof fn lemma_single_provider_winner(p: ComputeProvider, j: GxfJobView)
    ensures
        spec_winner(seq![p], j) == if spec_can_handle(p, j) {
            Some(0int)
        } else {
            None::<int>
        },
{
    reveal_with_fuel(spec_winner, 3);
    assert(seq![p].drop_last() =~= Seq::<ComputeProvider>::empty());
    assert(seq![p][0] == p);
}

/// Recording a match keeps the statistics sound and raises the volume by
/// exactly the clearing price.
pub proof fn lemma_commit_preserves_stats(
    pre: AuctionStats,
    post: AuctionStats,
    p: PrecisionLevel,
    lane: u8,
    price: u64,
)
    requires
        spec_stats_wf(pre),
        crate::store::spec_stats_committed(pre, post, p, lane, price),
    ensures
        spec_stats_wf(post),
        post.total_volume == pre.total_volume + price,
        post.total_matches + post.total_unmatched <= post.total_auctions,
{
}

/// Scans the pool for the winning provider.
pub fn select_provider(providers: &Vec<ComputeProvider>, job: &GxfJob) -> (r: Option<usize>)
    ensures
        match r {
            Some(c) => spec_winner(providers@, job@) == Some(c as int),
            None => spec_winner(providers@, job@) is None,
        },
{
    let n = providers.len();
    let mut best: Option<usize> = None;
    let mut t: usize = 0;
    while t < n
        invariant
            n == providers@.len(),
            0 <= t <= n,
            match best {
                Some(c) => c < t && spec_winner(providers@.take(t as int), job@) == Some(c as int)
                    && providers@[c as int].capacity > 0,
                None => spec_winner(providers@.take(t as int), job@) is None,
            },
        decreases n - t,
    {
        proof {
            assert(providers@.take(t + 1).drop_last() =~= providers@.take(t as int));
            assert(providers@.take(t + 1)[t as int] == providers@[t as int]);
        }
        if providers[t].can_handle(job) {
            match best {
                None => {
                    best = Some(t);
                },
                Some(c) => {
                    let pt = providers[t].calculate_price(job);
                    let pc = providers[c].calculate_price(job);
                    if pt < pc {
                        best = Some(t);
                    }
                },
            }
        }
        t += 1;
    }
    proof {
        assert(providers@.take(n as int) =~= providers@);
    }
    best
}

/// Scans the route set for the chosen route of a priority.
pub fn select_route(routes: &Vec<Route>, priority: u8) -> (r: Option<usize>)
    ensures
        match r {
            Some(c) => spec_route_choice(routes@, priority) == Some(c as int),
            None => spec_route_choice(routes@, priority) is None,
        },
{
    let lane: u8 = if priority >= 128 {
        0
    } else {
        1
    };
    match select_route_in(routes, Some(lane)) {
        Some(c) => Some(c),
        None => select_route_in(routes, None),
    }
}

/// Scans the route set for the best route of one lane, or of every lane.
fn select_route_in(routes: &Vec<Route>, lane: Option<u8>) -> (r: Option<usize>)
    ensures
        match r {
            Some(c) => spec_best_route(routes@, lane) == Some(c as int),
            None => spec_best_route(routes@, lane) is None,
        },
{
    let n = routes.len();
    let mut best: Option<usize> = None;
    let mut t: usize = 0;
    while t < n
        invariant
            n == routes@.len(),
            0 <= t <= n,
            match best {
                Some(c) => c < t && spec_best_route(routes@.take(t as int), lane) == Some(c as int),
                None => spec_best_route(routes@.take(t as int), lane) is None,
            },
        decreases n - t,
    {
        proof {
            assert(routes@.take(t + 1).drop_last() =~= routes@.take(t as int));
            assert(routes@.take(t + 1)[t as int] == routes@[t as int]);
        }
        let in_lane = match lane {
            None => true,
            Some(l) => routes[t].lane_id.0 == l,
        };
        if in_lane {
            match best {
                None => {
                    best = Some(t);
                },
                Some(c) => {
                    let st = routes[t].score_micros();
                    let sc = routes[c].score_micros();
                    if st < sc {
                        best = Some(t);
                    }
                },
            }
        }
        t += 1;
    }
    proof {
        assert(routes@.take(n as int) =~= routes@);
    }
    best
}

} // verus!
