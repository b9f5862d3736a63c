//! The priority router: lane selection and per-lane capacity tracking.
//!
//! An envelope is validated, its priority picks a primary lane, and the
//! first lane with spare capacity — primary first, then the other — takes
//! the job. The commit bumps the lane's active-job count, the lane's
//! routed count, and the total. Counts only ever grow; nothing here
//! releases a lane slot.

use vstd::prelude::*;

use crate::clock::current_unix_seconds;
use crate::codec::spec_env_validate;
use crate::common::LaneId;
use crate::gxf::{GxfEnvelope, GxfError};

verus! {

/// One routing lane and its occupancy.
#[derive(Debug, Clone, PartialEq, Eq)]
pub struct LaneInfo {
    /// Lane identifier.
    pub id: LaneId,
    /// Human-readable lane name.
    pub name: String,
    /// Greatest number of concurrently active jobs.
    pub capacity: u32,
    /// Number of currently active jobs.
    pub active_jobs: u32,
}

/// The router: its lanes and its routing counters.
#[derive(Debug, Clone, PartialEq, Eq)]
pub struct RouterState {
    /// The lanes, the express lane first.
    pub lanes: Vec<LaneInfo>,
    /// Jobs routed per lane, keyed by lane identifier.
    pub stats: Vec<(u8, u64)>,
    /// Jobs routed in all.
    pub total_routed: u64,
}

/// A snapshot of the routing counters.
#[derive(Debug, Clone, PartialEq, Eq)]
pub struct RouterStats {
    /// Jobs routed in all.
    pub total_routed: u64,
    /// Jobs routed per lane, keyed by lane identifier.
    pub lane_stats: Vec<(u8, u64)>,
}

/// An error of the routing path.
#[derive(Debug, Clone, PartialEq, Eq, Structural)]
pub enum RouterError {
    /// The envelope failed validation.
    Envelope(GxfError),
    /// No lane has spare capacity.
    AllLanesAtCapacity,
}

/// The well-formed router: exactly the two deployed lanes, in order, and
/// coherent counters — each lane recorded once, and the total equal to
/// the per-lane counts' sum until the total saturates.
pub open spec fn spec_router_wf(r: RouterState) -> bool {
    &&& r.lanes@.len() == 2
    &&& r.lanes@[0].id == LaneId(0)
    &&& r.lanes@[1].id == LaneId(1)
    &&& spec_lanes_unique(r.stats@)
    &&& (r.total_routed < u64::MAX ==> r.total_routed == spec_counts_sum(r.stats@))
}

/// The sum of all recorded per-lane counts.
pub open spec fn spec_counts_sum(stats: Seq<(u8, u64)>) -> int
    decreases stats.len(),
{
    if stats.len() == 0 {
        0
    } else {
        stats[0].1 + spec_counts_sum(stats.drop_first())
    }
}

/// Whether every lane is recorded at most once.
pub open spec fn spec_lanes_unique(stats: Seq<(u8, u64)>) -> bool {
    forall|i: int, j: int|
        0 <= i < j < stats.len() ==> (#[trigger] stats[i]).0 != (#[trigger] stats[j]).0
}

/// The count recorded for a lane: the first entry of the lane, or zero.
pub open spec fn spec_lane_count(stats: Seq<(u8, u64)>, lane: u8) -> u64
    decreases stats.len(),
{
    if stats.len() == 0 {
        0
    } else if stats[0].0 == lane {
        stats[0].1
    } else {
        spec_lane_count(stats.drop_first(), lane)
    }
}

/// An increment that sticks at the greatest value instead of wrapping.
pub open spec fn spec_sat_inc(x: u64) -> u64 {
    if x == u64::MAX {
        u64::MAX
    } else {
        (x + 1) as u64
    }
}

/// The lane the router picks for a priority: the primary lane of the
/// priority if it has spare capacity, else the other lane if it has, else
/// none.
pub open spec fn spec_select_lane(r: RouterState, priority: u8) -> Option<int> {
    let primary: int = if priority >= 128 {
        0
    } else {
        1
    };
    let other: int = 1 - primary;
    if r.lanes@[primary].active_jobs < r.lanes@[primary].capacity {
        Some(primary)
    } else if r.lanes@[other].active_jobs < r.lanes@[other].capacity {
        Some(other)
    } else {
        None
    }
}

/// Whether `post` is `pre` after a commit on the lane at `t`: that lane's
/// active jobs, its routed count, and the total all grow by one; nothing
/// else changes.
pub open spec fn spec_router_committed(pre: RouterState, post: RouterState, t: int) -> bool {
    &&& post.lanes@ == pre.lanes@.update(
        t,
        LaneInfo { active_jobs: (pre.lanes@[t].active_jobs + 1) as u32, ..pre.lanes@[t] },
    )
    &&& post.stats@ == spec_lane_bump(pre.stats@, pre.lanes@[t].id.0)
    &&& post.total_routed == spec_sat_inc(pre.total_routed)
}

/// The outcome of one routing call at time `now`: a rejected envelope or a
/// full router is reported and changes nothing; otherwise the chosen
/// lane's identifier is returned and the commit is applied.
pub open spec fn spec_route_outcome(
    pre: RouterState,
    post: RouterState,
    env: crate::gxf::GxfEnvelopeView,
    now: u64,
    r: Result<LaneId, RouterError>,
) -> bool {
    match spec_env_validate(env, now) {
        Err(e) => r == Result::<LaneId, RouterError>::Err(RouterError::Envelope(e)) && post == pre,
        Ok(_) => match spec_select_lane(pre, env.meta.priority) {
            None => r == Result::<LaneId, RouterError>::Err(RouterError::AllLanesAtCapacity)
                && post == pre,
            Some(t) => r == Result::<LaneId, RouterError>::Ok(pre.lanes@[t].id)
                && spec_router_committed(pre, post, t),
        },
    }
}

/// The recorded counts after bumping one lane: its first entry grows by
/// one, or a fresh entry of one is appended.
pub open spec fn spec_lane_bump(stats: Seq<(u8, u64)>, lane: u8) -> Seq<(u8, u64)>
    decreases stats.len(),
{
    if stats.len() == 0 {
        seq![(lane, 1u64)]
    } else if stats[0].0 == lane {
        seq![(stats[0].0, spec_sat_inc(stats[0].1))] + stats.drop_first()
    } else {
        seq![stats[0]] + spec_lane_bump(stats.drop_first(), lane)
    }
}

/// A lane's recorded count never exceeds the sum of all recorded counts.
pub proof fn lemma_count_le_sum(stats: Seq<(u8, u64)>, lane: u8)
    ensures
        spec_lane_count(stats, lane) <= spec_counts_sum(stats),
    decreases stats.len(),
{
    if stats.len() > 0 {
        lemma_count_le_sum(stats.drop_first(), lane);
        lemma_sum_nonneg(stats.drop_first());
    }
}

/// The sum of recorded counts is never negative.
pub proof fn lemma_sum_nonneg(stats: Seq<(u8, u64)>)
    ensures
        spec_counts_sum(stats) >= 0,
    decreases stats.len(),
{
    if stats.len() > 0 {
        lemma_sum_nonneg(stats.drop_first());
    }
}

/// Bumping a lane whose count has room raises the sum by exactly one.
pub proof fn lemma_bump_sum(stats: Seq<(u8, u64)>, lane: u8)
    requires
        spec_lane_count(stats, lane) < u64::MAX,
    ensures
        spec_counts_sum(spec_lane_bump(stats, lane)) == spec_counts_sum(stats) + 1,
    decreases stats.len(),
{
    let b = spec_lane_bump(stats, lane);
    if stats.len() == 0 {
        assert(b == seq![(lane, 1u64)]);
        assert(b[0] == (lane, 1u64));
        assert(b.drop_first() =~= Seq::<(u8, u64)>::empty());
        assert(spec_counts_sum(b.drop_first()) == 0);
    } else if stats[0].0 == lane {
        assert(b[0] == (stats[0].0, spec_sat_inc(stats[0].1)));
        assert(b.drop_first() =~= stats.drop_first());
        assert(spec_counts_sum(b) == b[0].1 + spec_counts_sum(stats.drop_first()));
    } else {
        lemma_bump_sum(stats.drop_first(), lane);
        assert(b[0] == stats[0]);
        assert(b.drop_first() =~= spec_lane_bump(stats.drop_first(), lane));
        assert(spec_counts_sum(b) == b[0].1 + spec_counts_sum(
            spec_lane_bump(stats.drop_first(), lane),
        ));
    }
}

/// Bumping keeps every lane recorded at most once.
pub proof fn lemma_bump_unique(stats: Seq<(u8, u64)>, lane: u8)
    requires
        spec_lanes_unique(stats),
    ensures
        spec_lanes_unique(spec_lane_bump(stats, lane)),
        forall|u: int|
            0 <= u < spec_lane_bump(stats, lane).len() ==> ((#[trigger] spec_lane_bump(
                stats,
                lane,
            )[u]).0 == lane || spec_lane_count(stats, spec_lane_bump(stats, lane)[u].0) > 0
                || exists|v: int| 0 <= v < stats.len() && (#[trigger] stats[v]).0 == spec_lane_bump(
                stats,
                lane,
            )[u].0),
    decreases stats.len(),
{
    let b = spec_lane_bump(stats, lane);
    if stats.len() == 0 {
        assert(b == seq![(lane, 1u64)]);
    } else if stats[0].0 == lane {
        assert(b.drop_first() =~= stats.drop_first());
        assert forall|i: int, j: int|
            0 <= i < j < b.len() implies (#[trigger] b[i]).0 != (#[trigger] b[j]).0 by {
            if i == 0 {
                assert(b[j] == stats[j]);
                assert(stats[0].0 != stats[j].0);
            } else {
                assert(b[i] == stats[i] && b[j] == stats[j]);
            }
        }
        assert forall|u: int|
            0 <= u < b.len() implies ((#[trigger] b[u]).0 == lane || spec_lane_count(stats, b[u].0)
            > 0 || exists|v: int| 0 <= v < stats.len() && (#[trigger] stats[v]).0 == b[u].0) by {
            if u == 0 {
            } else {
                assert(stats[u].0 == b[u].0);
            }
        }
    } else {
        assert forall|i: int, j: int|
            0 <= i < j < stats.drop_first().len() implies (#[trigger] stats.drop_first()[i]).0 != (
        #[trigger] stats.drop_first()[j]).0 by {
            assert(stats.drop_first()[i] == stats[i + 1]);
            assert(stats.drop_first()[j] == stats[j + 1]);
        }
        lemma_bump_unique(stats.drop_first(), lane);
        let rest = spec_lane_bump(stats.drop_first(), lane);
        assert(b.drop_first() =~= rest);
        assert(b[0] == stats[0]);
        assert forall|i: int, j: int|
            0 <= i < j < b.len() implies (#[trigger] b[i]).0 != (#[trigger] b[j]).0 by {
            if i == 0 {
                // the head's lane differs from the bumped lane and from
                // every lane of the tail
                assert(rest[j - 1].0 == lane || exists|v: int|
                    0 <= v < stats.drop_first().len() && (#[trigger] stats.drop_first()[v]).0
                        == rest[j - 1].0 || spec_lane_count(stats.drop_first(), rest[j - 1].0) > 0);
                if rest[j - 1].0 != lane {
                    if exists|v: int|
                        0 <= v < stats.drop_first().len() && (#[trigger] stats.drop_first()[v]).0
                            == rest[j - 1].0 {
                        let v = choose|v: int|
                            0 <= v < stats.drop_first().len() && (#[trigger] stats.drop_first()[
                            v]).0 == rest[j - 1].0;
                        assert(stats[v + 1].0 == rest[j - 1].0);
                        assert(stats[0].0 != stats[v + 1].0);
                    } else {
                        lemma_count_positive_has_key(stats.drop_first(), rest[j - 1].0);
                    }
                }
            }
        }
        assert forall|u: int|
            0 <= u < b.len() implies ((#[trigger] b[u]).0 == lane || spec_lane_count(stats, b[u].0)
            > 0 || exists|v: int| 0 <= v < stats.len() && (#[trigger] stats[v]).0 == b[u].0) by {
            if u == 0 {
                assert(stats[0].0 == b[0].0);
            } else {
                assert(b[u] == rest[u - 1]);
                if rest[u - 1].0 != lane {
                    if exists|v: int|
                        0 <= v < stats.drop_first().len() && (#[trigger] stats.drop_first()[v]).0
                            == rest[u - 1].0 {
                        let v = choose|v: int|
                            0 <= v < stats.drop_first().len() && (#[trigger] stats.drop_first()[
                            v]).0 == rest[u - 1].0;
                        assert(stats[v + 1].0 == rest[u - 1].0);
                    } else {
                        lemma_count_positive_has_key(stats.drop_first(), rest[u - 1].0);
                    }
                }
            }
        }
    }
}

/// A lane with a positive recorded count has an entry.
pub proof fn lemma_count_positive_has_key(stats: Seq<(u8, u64)>, lane: u8)
    requires
        spec_lane_count(stats, lane) > 0,
    ensures
        exists|v: int| 0 <= v < stats.len() && (#[trigger] stats[v]).0 == lane,
    decreases stats.len(),
{
    if stats.len() > 0 {
        if stats[0].0 != lane {
            lemma_count_positive_has_key(stats.drop_first(), lane);
            let v = choose|v: int|
                0 <= v < stats.drop_first().len() && (#[trigger] stats.drop_first()[v]).0 == lane;
            assert(stats[v + 1].0 == lane);
        }
    }
}

/// A committed routing keeps the router well formed.
pub proof fn lemma_commit_preserves_router_wf(pre: RouterState, post: RouterState, t: int)
    requires
        spec_router_wf(pre),
        0 <= t < pre.lanes@.len(),
        spec_router_committed(pre, post, t),
    ensures
        spec_router_wf(post),
{
    let lane = pre.lanes@[t].id.0;
    lemma_bump_unique(pre.stats@, lane);
    if post.total_routed < u64::MAX {
        assert(pre.total_routed < u64::MAX);
        lemma_count_le_sum(pre.stats@, lane);
        lemma_bump_sum(pre.stats@, lane);
    }
}

/// Bumping a lane raises its count by one (saturating) and leaves every
/// other lane's count unchanged.
pub proof fn lemma_lane_bump(stats: Seq<(u8, u64)>, lane: u8)
    ensures
        spec_lane_count(spec_lane_bump(stats, lane), lane) == spec_sat_inc(
            spec_lane_count(stats, lane),
        ),
        forall|l: u8|
            l != lane ==> #[trigger] spec_lane_count(spec_lane_bump(stats, lane), l)
                == spec_lane_count(stats, l),
    decreases stats.len(),
{
    reveal_with_fuel(spec_lane_count, 2);
    if stats.len() == 0 {
        assert(spec_lane_bump(stats, lane) == seq![(lane, 1u64)]);
        assert forall|l: u8|
            l != lane implies #[trigger] spec_lane_count(spec_lane_bump(stats, lane), l)
            == spec_lane_count(stats, l) by {
            assert(spec_lane_bump(stats, lane).drop_first() =~= Seq::<(u8, u64)>::empty());
        }
    } else if stats[0].0 == lane {
        let b = spec_lane_bump(stats, lane);
        assert(b.drop_first() =~= stats.drop_first());
        assert forall|l: u8|
            l != lane implies #[trigger] spec_lane_count(spec_lane_bump(stats, lane), l)
            == spec_lane_count(stats, l) by {
            assert(spec_lane_count(b, l) == spec_lane_count(stats.drop_first(), l));
            assert(spec_lane_count(stats, l) == spec_lane_count(stats.drop_first(), l));
        }
    } else {
        lemma_lane_bump(stats.drop_first(), lane);
        let b = spec_lane_bump(stats, lane);
        assert(b.drop_first() =~= spec_lane_bump(stats.drop_first(), lane));
        assert(b[0] == stats[0]);
        assert(spec_lane_count(b, lane) == spec_lane_count(
            spec_lane_bump(stats.drop_first(), lane),
            lane,
        ));
        assert forall|l: u8|
            l != lane implies #[trigger] spec_lane_count(spec_lane_bump(stats, lane), l)
            == spec_lane_count(stats, l) by {
            if stats[0].0 != l {
                assert(spec_lane_count(b, l) == spec_lane_count(
                    spec_lane_bump(stats.drop_first(), lane),
                    l,
                ));
                assert(spec_lane_count(stats, l) == spec_lane_count(stats.drop_first(), l));
            }
        }
    }
}

/// A committed routing fills exactly one slot: the accepted lane's active
/// jobs grow by one and stay within its capacity.
pub proof fn lemma_commit_respects_capacity(pre: RouterState, post: RouterState, t: int)
    requires
        spec_router_wf(pre),
        0 <= t < pre.lanes@.len(),
        pre.lanes@[t].active_jobs < pre.lanes@[t].capacity,
        spec_router_committed(pre, post, t),
    ensures
        post.lanes@[t].active_jobs == pre.lanes@[t].active_jobs + 1,
        post.lanes@[t].active_jobs <= post.lanes@[t].capacity,
{
}

impl RouterState {
    /// A fresh router with the two deployed lanes — the express lane with
    /// room for a hundred jobs, the bulk lane with room for fifty — and
    /// zeroed counters.
    pub fn new() -> (r: Self)
        ensures
            spec_router_wf(r),
            r.lanes@[0].capacity == 100 && r.lanes@[0].active_jobs == 0,
            r.lanes@[1].capacity == 50 && r.lanes@[1].active_jobs == 0,
            r.lanes@[0].name@ == "Flash"@,
            r.lanes@[1].name@ == "Deep"@,
            r.stats@.len() == 0,
            r.total_routed == 0,
    {
        let mut lanes: Vec<LaneInfo> = Vec::new();
        lanes.push(
            LaneInfo {
                id: LaneId(0),
                name: "Flash".to_owned(),
                capacity: 100,
                active_jobs: 0,
            },
        );
        lanes.push(
            LaneInfo { id: LaneId(1), name: "Deep".to_owned(), capacity: 50, active_jobs: 0 },
        );
        RouterState { lanes, stats: Vec::new(), total_routed: 0 }
    }

    /// The lane the router picks for this priority, without committing.
    fn select_lane(&self, priority: u8) -> (r: Result<usize, RouterError>)
        requires
            spec_router_wf(*self),
        ensures
            match spec_select_lane(*self, priority) {
                Some(t) => r == Result::<usize, RouterError>::Ok(t as usize),
                None => r == Result::<usize, RouterError>::Err(RouterError::AllLanesAtCapacity),
            },
    {
        let primary: usize = if priority >= 128 {
            0
        } else {
            1
        };
        let other: usize = 1 - primary;
        if self.lanes[primary].active_jobs < self.lanes[primary].capacity {
            Ok(primary)
        } else if self.lanes[other].active_jobs < self.lanes[other].capacity {
            Ok(other)
        } else {
            Err(RouterError::AllLanesAtCapacity)
        }
    }

    /// Commits a routing on the lane at `t`.
    fn commit(&mut self, t: usize)
        requires
            spec_router_wf(*old(self)),
            t < old(self).lanes@.len(),
            old(self).lanes@[t as int].active_jobs < old(self).lanes@[t as int].capacity,
        ensures
            spec_router_committed(*old(self), *final(self), t as int),
    {
        let lane_id = self.lanes[t].id.0;
        let active = self.lanes[t].active_jobs;
        let cap = self.lanes[t].capacity;
        let name = self.lanes[t].name.clone();
        self.lanes.set(
            t,
            LaneInfo { id: LaneId(lane_id), name, capacity: cap, active_jobs: active + 1 },
        );
        let n = self.stats.len();
        let mut k: usize = 0;
        while k < n
            invariant
                n == self.stats@.len(),
                0 <= k <= n,
                forall|u: int| 0 <= u < k ==> (#[trigger] self.stats@[u]).0 != lane_id,
                lane_id == old(self).lanes@[t as int].id.0,
                self.lanes@ == old(self).lanes@.update(
                    t as int,
                    LaneInfo {
                        active_jobs: (old(self).lanes@[t as int].active_jobs + 1) as u32,
                        ..old(self).lanes@[t as int]
                    },
                ),
                self.total_routed == old(self).total_routed,
                self.stats@ == old(self).stats@,
            decreases n - k,
        {
            if self.stats[k].0 == lane_id {
                let c = self.stats[k].1;
                let bumped = if c == u64::MAX {
                    u64::MAX
                } else {
                    c + 1
                };
                self.stats.set(k, (lane_id, bumped));
                proof {
                    lemma_lane_bump_at(old(self).stats@, lane_id, k as int);
                    assert(self.stats@ =~= spec_lane_bump(old(self).stats@, lane_id));
                }
                self.bump_total();
                return ;
            }
            k += 1;
        }
        self.stats.push((lane_id, 1));
        proof {
            lemma_lane_bump_missing(old(self).stats@, lane_id);
            assert(self.stats@ =~= spec_lane_bump(old(self).stats@, lane_id));
        }
        self.bump_total();
    }

    /// Bumps the total, sticking at the greatest value.
    fn bump_total(&mut self)
        ensures
            *final(self) == (RouterState {
                total_routed: spec_sat_inc(old(self).total_routed),
                ..*old(self)
            }),
    {
        if self.total_routed < u64::MAX {
            self.total_routed = self.total_routed + 1;
        }
    }

    /// A snapshot of the routing counters. Of a well-formed router the
    /// snapshot is coherent: each lane appears once, and the total equals
    /// the per-lane counts' sum until the total saturates.
    pub fn get_stats(&self) -> (r: RouterStats)
        ensures
            r.total_routed == self.total_routed,
            r.lane_stats@ == self.stats@,
            spec_router_wf(*self) ==> spec_lanes_unique(r.lane_stats@) && (r.total_routed
                < u64::MAX ==> r.total_routed == spec_counts_sum(r.lane_stats@)),
    {
        let n = self.stats.len();
        let mut copy: Vec<(u8, u64)> = Vec::new();
        let mut k: usize = 0;
        while k < n
            invariant
                n == self.stats@.len(),
                0 <= k <= n,
                copy@ =~= self.stats@.subrange(0, k as int),
            decreases n - k,
        {
            copy.push(self.stats[k]);
            proof {
                assert(copy@ =~= self.stats@.subrange(0, k + 1));
            }
            k += 1;
        }
        proof {
            assert(self.stats@.subrange(0, n as int) =~= self.stats@);
        }
        RouterStats { total_routed: self.total_routed, lane_stats: copy }
    }
}

/// Updating an entry whose key matches and which no earlier entry's key
/// matches is the bump of the recorded counts.
pub(crate) proof fn lemma_lane_bump_at(stats: Seq<(u8, u64)>, lane: u8, k: int)
    requires
        0 <= k < stats.len(),
        stats[k].0 == lane,
        forall|u: int| 0 <= u < k ==> (#[trigger] stats[u]).0 != lane,
    ensures
        spec_lane_bump(stats, lane) == stats.update(k, (lane, spec_sat_inc(stats[k].1))),
    decreases k,
{
    if k == 0 {
        assert(spec_lane_bump(stats, lane) =~= stats.update(0, (lane, spec_sat_inc(stats[0].1))));
    } else {
        lemma_lane_bump_at(stats.drop_first(), lane, k - 1);
        assert(spec_lane_bump(stats, lane) =~= stats.update(k, (lane, spec_sat_inc(stats[k].1))));
    }
}

/// Appending a fresh entry for an absent key is the bump of the recorded
/// counts.
pub(crate) proof fn lemma_lane_bump_missing(stats: Seq<(u8, u64)>, lane: u8)
    requires
        forall|u: int| 0 <= u < stats.len() ==> (#[trigger] stats[u]).0 != lane,
    ensures
        spec_lane_bump(stats, lane) == stats.push((lane, 1u64)),
    decreases stats.len(),
{
    if stats.len() == 0 {
        assert(spec_lane_bump(stats, lane) =~= stats.push((lane, 1u64)));
    } else {
        lemma_lane_bump_missing(stats.drop_first(), lane);
        assert(spec_lane_bump(stats, lane) =~= stats.push((lane, 1u64)));
    }
}

/// Routes an envelope at time `now`: validates it, picks a lane with spare
/// capacity, and commits the routing. A rejected or expired envelope and a
/// full router change nothing.
pub fn process_envelope_at(router: &mut RouterState, envelope: &GxfEnvelope, now: u64) -> (r:
    Result<LaneId, RouterError>)
    requires
        spec_router_wf(*old(router)),
    ensures
        spec_router_wf(*final(router)),
        spec_route_outcome(*old(router), *final(router), envelope@, now, r),
{
    if let Err(e) = envelope.validate_at(now) {
        return Err(RouterError::Envelope(e));
    }
    let lane_index = match router.select_lane(envelope.meta.priority) {
        Ok(t) => t,
        Err(e) => {
            return Err(e);
        },
    };
    let id = router.lanes[lane_index].id;
    router.commit(lane_index);
    proof {
        lemma_commit_preserves_router_wf(*old(router), *router, lane_index as int);
    }
    Ok(id)
}

/// Routes an envelope against the system clock.
pub fn process_envelope(router: &mut RouterState, envelope: &GxfEnvelope) -> (r: Result<
    LaneId,
    RouterError,
>)
    requires
        spec_router_wf(*old(router)),
    ensures
        spec_router_wf(*final(router)),
        exists|now: u64| #[trigger] spec_route_outcome(*old(router), *final(router), envelope@, now, r),
{
    let now = current_unix_seconds();
    process_envelope_at(router, envelope, now)
}

} // verus!
