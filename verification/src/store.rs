//! The durable auction engine.
//!
//! The engine owns a live working set — providers, routes, statistics —
//! beside a handle to an embedded store with one partition for each. Every
//! auction runs against the working set and writes the changed records
//! through to the store before reporting success; loading at startup reads
//! the partitions back through the verified record codecs, seeding the
//! default pool on first start.

use vstd::prelude::*;

use crate::auction::{
    select_provider, select_route, spec_price_clamped, spec_route_choice, spec_stats_wf,
    spec_winner, AuctionMatch, AuctionStats, ComputeProvider, Route,
};
use crate::clock::current_unix_seconds;
use crate::codec::spec_env_validate;
use crate::common::{GixError, LaneId, SlpId};
use crate::gxf::{
    spec_precision_bump, spec_precision_count, GxfEnvelope, GxfError, GxfJob, GxfJobView,
    PrecisionCounts, PrecisionLevel,
};
use crate::persist::{
    enc_provider, enc_route, enc_stats, provider_from_store, provider_to_store, route_from_store,
    route_to_store, stats_from_store, stats_to_store, strs_view, wire_provider_ok, wire_route_ok,
};
use crate::router::{lemma_lane_bump_at, lemma_lane_bump_missing, spec_lane_bump, spec_lane_count};

verus! {

#[verifier::external_type_specification]
#[verifier::external_body]
pub struct ExSledDb(sled::Db);

#[verifier::external_type_specification]
#[verifier::external_body]
pub struct ExSledTree(sled::Tree);

/// Relies on sled::open: opens or creates the embedded store under the
/// given directory. What it holds depends on the disk; nothing is assumed
/// of the result.
#[verifier::external_body]
pub fn open_db(path: &str) -> (r: Result<sled::Db, GixError>)
    ensures
        r matches Err(e) ==> e is InternalError,
{
    sled::open(path).map_err(|e| GixError::InternalError(format!("store open failed: {}", e)))
}

/// Relies on sled::Db::open_tree: opens or creates the named partition.
#[verifier::external_body]
fn open_tree(db: &sled::Db, name: &str) -> (r: Result<sled::Tree, GixError>)
    ensures
        r matches Err(e) ==> e is InternalError,
{
    db.open_tree(name).map_err(|e| GixError::InternalError(format!("partition failed: {}", e)))
}

/// Relies on sled::Tree::iter: the values stored in the partition, in the
/// store's order. What comes back depends on the disk; nothing is assumed
/// of it.
#[verifier::external_body]
fn tree_values(tree: &sled::Tree) -> (r: Result<Vec<Vec<u8>>, GixError>)
    ensures
        r matches Err(e) ==> e is InternalError,
{
    let mut out: Vec<Vec<u8>> = Vec::new();
    for item in tree.iter() {
        let (_key, value) = item.map_err(|e| {
            GixError::InternalError(format!("store read failed: {}", e))
        })?;
        out.push(value.to_vec());
    }
    Ok(out)
}

/// Relies on sled::Tree::get: the value stored under the key, if any.
#[verifier::external_body]
fn tree_get(tree: &sled::Tree, key: &[u8]) -> (r: Result<Option<Vec<u8>>, GixError>)
    ensures
        r matches Err(e) ==> e is InternalError,
{
    match tree.get(key) {
        Ok(Some(v)) => Ok(Some(v.to_vec())),
        Ok(None) => Ok(None),
        Err(e) => Err(GixError::InternalError(format!("store read failed: {}", e))),
    }
}

/// Relies on sled::Tree::insert: stores the value under the key.
#[verifier::external_body]
fn tree_insert(tree: &sled::Tree, key: &[u8], value: Vec<u8>) -> (r: Result<(), GixError>)
    ensures
        r matches Err(e) ==> e is InternalError,
{
    match tree.insert(key, value) {
        Ok(_) => Ok(()),
        Err(e) => Err(GixError::InternalError(format!("store write failed: {}", e))),
    }
}

/// Relies on sled::Tree::flush: forces the partition to stable storage.
#[verifier::external_body]
fn tree_flush(tree: &sled::Tree) -> (r: Result<(), GixError>)
    ensures
        r matches Err(e) ==> e is InternalError,
{
    match tree.flush() {
        Ok(_) => Ok(()),
        Err(e) => Err(GixError::InternalError(format!("store flush failed: {}", e))),
    }
}

/// Relies on sled::Db::flush: forces the store to stable storage.
#[verifier::external_body]
fn db_flush(db: &sled::Db) -> (r: Result<(), GixError>)
    ensures
        r matches Err(e) ==> e is InternalError,
{
    match db.flush() {
        Ok(_) => Ok(()),
        Err(e) => Err(GixError::InternalError(format!("store flush failed: {}", e))),
    }
}

/// The durable auction engine: the live working set beside the store.
pub struct AuctionEngine {
    /// The embedded store.
    pub db: sled::Db,
    /// The provider partition.
    pub providers_tree: sled::Tree,
    /// The route partition.
    pub routes_tree: sled::Tree,
    /// The statistics partition.
    pub stats_tree: sled::Tree,
    /// The live provider pool.
    pub providers: Vec<ComputeProvider>,
    /// The live route set.
    pub routes: Vec<Route>,
    /// The live statistics.
    pub stats: AuctionStats,
}

/// The engine invariant: every provider within its capacity and storable,
/// every route storable with a nonempty path, and the statistics sound.
pub open spec fn spec_engine_wf(e: AuctionEngine) -> bool {
    &&& forall|t: int|
        0 <= t < e.providers@.len() ==> (#[trigger] e.providers@[t]).utilization
            <= e.providers@[t].capacity && wire_provider_ok(e.providers@[t])
    &&& forall|t: int|
        0 <= t < e.routes@.len() ==> wire_route_ok(#[trigger] e.routes@[t])
            && e.routes@[t].path@.len() >= 1
    &&& spec_stats_wf(e.stats)
}

/// Whether the live working sets of two engines are unchanged between
/// them.
pub open spec fn spec_engine_unchanged(pre: AuctionEngine, post: AuctionEngine) -> bool {
    &&& post.providers@ == pre.providers@
    &&& post.routes@ == pre.routes@
    &&& post.stats == pre.stats
}

/// Whether the statistics can take one more match of the given precision,
/// lane and price without any counter wrapping.
pub open spec fn spec_counters_fit(st: AuctionStats, p: PrecisionLevel, lane: u8, price: u64) -> bool {
    &&& st.total_auctions < u64::MAX
    &&& st.total_matches < u64::MAX
    &&& st.total_volume + price <= u64::MAX
    &&& spec_precision_count(st.matches_by_precision, p) < u64::MAX
    &&& spec_lane_count(st.matches_by_lane@, lane) < u64::MAX
}

/// Whether `post` is `pre` after recording one match of the given
/// precision, lane and price: the auction, match and volume counters grow
/// exactly, the precision and lane counts grow by one, and unmatched
/// auctions stay.
pub open spec fn spec_stats_committed(
    pre: AuctionStats,
    post: AuctionStats,
    p: PrecisionLevel,
    lane: u8,
    price: u64,
) -> bool {
    &&& post.total_auctions == pre.total_auctions + 1
    &&& post.total_matches == pre.total_matches + 1
    &&& post.total_unmatched == pre.total_unmatched
    &&& post.total_volume == pre.total_volume + price
    &&& post.matches_by_precision == spec_precision_bump(pre.matches_by_precision, p)
    &&& post.matches_by_lane@ == spec_lane_bump(pre.matches_by_lane@, lane)
}

/// A storage-failure report.
pub open spec fn is_internal_err(r: Result<AuctionMatch, GixError>) -> bool {
    r matches Err(e) && e is InternalError
}

/// The report that no provider can take the job.
pub open spec fn is_no_match_err(r: Result<AuctionMatch, GixError>) -> bool {
    r matches Err(e) && (e matches GixError::InternalError(m) && m@
        == "No matching providers found"@)
}

/// The report that no route exists.
pub open spec fn is_no_route_err(r: Result<AuctionMatch, GixError>) -> bool {
    r matches Err(e) && (e matches GixError::InternalError(m) && m@ == "No route available"@)
}

/// The outcome of one auction: with no candidate or no route, the
/// respective report and no change; otherwise the commit on the winning
/// provider and the chosen route, reported with the provider, lane, price
/// and path — or a storage failure after the commit. Counters about to
/// wrap are reported without any change.
pub open spec fn spec_auction_outcome(
    pre: AuctionEngine,
    post: AuctionEngine,
    j: GxfJobView,
    priority: u8,
    r: Result<AuctionMatch, GixError>,
) -> bool {
    match spec_winner(pre.providers@, j) {
        None => spec_engine_unchanged(pre, post) && is_no_match_err(r),
        Some(c) => match spec_route_choice(pre.routes@, priority) {
            None => spec_engine_unchanged(pre, post) && is_no_route_err(r),
            Some(rt) => {
                let price = spec_price_clamped(pre.providers@[c], j);
                let lane = pre.routes@[rt].lane_id.0;
                if spec_counters_fit(pre.stats, j.precision, lane, price) {
                    &&& post.providers@.len() == pre.providers@.len()
                    &&& (forall|t: int|
                        0 <= t < pre.providers@.len() && t != c
                            ==> post.providers@[t] == pre.providers@[t])
                    &&& crate::persist::provider_eqv(
                        post.providers@[c],
                        ComputeProvider {
                            utilization: (pre.providers@[c].utilization + 1) as u32,
                            ..pre.providers@[c]
                        },
                    )
                    &&& post.routes@ == pre.routes@
                    &&& spec_stats_committed(pre.stats, post.stats, j.precision, lane, price)
                    &&& match r {
                        Ok(m) => {
                            &&& m.job_id.0@ == j.job_id
                            &&& m.slp_id.0@ == pre.providers@[c].slp_id.0@
                            &&& m.lane_id.0 == lane
                            &&& m.price == price
                            &&& strs_view(m.route@) == strs_view(pre.routes@[rt].path@)
                        },
                        Err(e) => e is InternalError,
                    }
                } else {
                    spec_engine_unchanged(pre, post) && is_internal_err(r)
                }
            },
        },
    }
}

/// The count recorded for a lane.
fn lane_count_of(v: &Vec<(u8, u64)>, lane: u8) -> (r: u64)
    ensures
        r == spec_lane_count(v@, lane),
{
    let n = v.len();
    let mut k: usize = 0;
    while k < n
        invariant
            n == v@.len(),
            0 <= k <= n,
            forall|u: int| 0 <= u < k ==> (#[trigger] v@[u]).0 != lane,
        decreases n - k,
    {
        if v[k].0 == lane {
            proof {
                lemma_lane_count_skip(v@, lane, k as int);
            }
            return v[k].1;
        }
        k += 1;
    }
    proof {
        lemma_lane_count_skip(v@, lane, n as int);
    }
    0
}

/// Looking a lane up after skipping entries of other lanes finds the same
/// count.
pub(crate) proof fn lemma_lane_count_skip(v: Seq<(u8, u64)>, lane: u8, k: int)
    requires
        0 <= k <= v.len(),
        forall|u: int| 0 <= u < k ==> (#[trigger] v[u]).0 != lane,
    ensures
        spec_lane_count(v, lane) == if k < v.len() && v[k].0 == lane {
            v[k].1
        } else {
            spec_lane_count(v.skip(k), lane)
        },
    decreases k,
{
    if k > 0 {
        assert(v.drop_first().skip(k - 1) =~= v.skip(k));
        lemma_lane_count_skip(v.drop_first(), lane, k - 1);
        if k < v.len() && v[k].0 == lane {
            assert(v.drop_first()[k - 1] == v[k]);
            assert(v.skip(k)[0] == v[k]);
            assert(spec_lane_count(v.skip(k), lane) == v[k].1);
        }
    } else {
        assert(v.skip(0) =~= v);
        if 0 < v.len() && v[0].0 == lane {
            assert(v.skip(0)[0] == v[0]);
        }
    }
}

/// Bumps a lane's recorded count: the first entry of the lane grows by
/// one, or a fresh entry of one is appended.
fn lane_bump_vec(v: &mut Vec<(u8, u64)>, lane: u8)
    requires
        spec_lane_count(old(v)@, lane) < u64::MAX,
    ensures
        final(v)@ == spec_lane_bump(old(v)@, lane),
{
    let n = v.len();
    let mut k: usize = 0;
    while k < n
        invariant
            n == v@.len(),
            0 <= k <= n,
            v@ == old(v)@,
            spec_lane_count(old(v)@, lane) < u64::MAX,
            forall|u: int| 0 <= u < k ==> (#[trigger] v@[u]).0 != lane,
        decreases n - k,
    {
        if v[k].0 == lane {
            proof {
                lemma_lane_count_skip(v@, lane, k as int);
                assert(spec_lane_count(v@, lane) == v@[k as int].1);
            }
            let c = v[k].1;
            proof {
                assert(c < u64::MAX);
            }
            v.set(k, (lane, c + 1));
            proof {
                lemma_lane_bump_at(old(v)@, lane, k as int);
                assert(v@ =~= spec_lane_bump(old(v)@, lane));
            }
            return ;
        }
        k += 1;
    }
    v.push((lane, 1));
    proof {
        lemma_lane_bump_missing(old(v)@, lane);
        assert(v@ =~= spec_lane_bump(old(v)@, lane));
    }
}

/// Copies a vector of strings.
fn clone_strings(v: &Vec<String>) -> (r: Vec<String>)
    ensures
        r@ == v@,
{
    let n = v.len();
    let mut out: Vec<String> = Vec::new();
    let mut k: usize = 0;
    while k < n
        invariant
            n == v@.len(),
            0 <= k <= n,
            out@ =~= v@.subrange(0, k as int),
        decreases n - k,
    {
        out.push(v[k].clone());
        proof {
            assert(out@ =~= v@.subrange(0, k + 1));
        }
        k += 1;
    }
    proof {
        assert(v@.subrange(0, n as int) =~= v@);
    }
    out
}

/// Copies the per-lane counts.
fn clone_lanes(v: &Vec<(u8, u64)>) -> (r: Vec<(u8, u64)>)
    ensures
        r@ == v@,
{
    let n = v.len();
    let mut out: Vec<(u8, u64)> = Vec::new();
    let mut k: usize = 0;
    while k < n
        invariant
            n == v@.len(),
            0 <= k <= n,
            out@ =~= v@.subrange(0, k as int),
        decreases n - k,
    {
        out.push(v[k]);
        proof {
            assert(out@ =~= v@.subrange(0, k + 1));
        }
        k += 1;
    }
    proof {
        assert(v@.subrange(0, n as int) =~= v@);
    }
    out
}

/// The default provider pool written on first start.
fn seed_providers() -> (r: Vec<ComputeProvider>)
    ensures
        r@.len() == 2,
        forall|t: int|
            0 <= t < r@.len() ==> (#[trigger] r@[t]).utilization <= r@[t].capacity
                && wire_provider_ok(r@[t]),
        r@[0].slp_id.0@ == "slp-us-east-1"@ && r@[0].base_price == 1000 && r@[0].capacity == 100
            && r@[0].utilization == 30 && r@[0].region@ == "US"@
            && r@[0].supported_precisions@.len() == 4,
        r@[1].slp_id.0@ == "slp-eu-west-1"@ && r@[1].base_price == 1200 && r@[1].capacity == 80
            && r@[1].utilization == 20 && r@[1].region@ == "EU"@
            && r@[1].supported_precisions@ == seq![
                PrecisionLevel::BF16,
                PrecisionLevel::FP8,
                PrecisionLevel::INT8,
            ],
        r@[0].supported_precisions@ == seq![
            PrecisionLevel::BF16,
            PrecisionLevel::FP8,
            PrecisionLevel::E5M2,
            PrecisionLevel::INT8,
        ],
{
    let mut all: Vec<PrecisionLevel> = Vec::new();
    all.push(PrecisionLevel::BF16);
    all.push(PrecisionLevel::FP8);
    all.push(PrecisionLevel::E5M2);
    all.push(PrecisionLevel::INT8);
    let mut eu: Vec<PrecisionLevel> = Vec::new();
    eu.push(PrecisionLevel::BF16);
    eu.push(PrecisionLevel::FP8);
    eu.push(PrecisionLevel::INT8);
    proof {
        assert(all@ =~= seq![
            PrecisionLevel::BF16,
            PrecisionLevel::FP8,
            PrecisionLevel::E5M2,
            PrecisionLevel::INT8,
        ]);
        assert(eu@ =~= seq![PrecisionLevel::BF16, PrecisionLevel::FP8, PrecisionLevel::INT8]);
    }
    let us = ComputeProvider {
        slp_id: SlpId("slp-us-east-1".to_owned()),
        supported_precisions: all,
        base_price: 1000,
        capacity: 100,
        utilization: 30,
        region: "US".to_owned(),
    };
    let west = ComputeProvider {
        slp_id: SlpId("slp-eu-west-1".to_owned()),
        supported_precisions: eu,
        base_price: 1200,
        capacity: 80,
        utilization: 20,
        region: "EU".to_owned(),
    };
    proof {
        reveal_strlit("slp-us-east-1");
        reveal_strlit("slp-eu-west-1");
        reveal_strlit("US");
        reveal_strlit("EU");
        assert(crate::wire::wire_str_ok(us.slp_id.0@));
        assert(crate::wire::wire_str_ok(us.region@));
        assert(crate::wire::wire_str_ok(west.slp_id.0@));
        assert(crate::wire::wire_str_ok(west.region@));
    }
    let mut v: Vec<ComputeProvider> = Vec::new();
    v.push(us);
    v.push(west);
    v
}

/// The default route set written on first start.
fn seed_routes() -> (r: Vec<Route>)
    ensures
        r@.len() == 2,
        forall|t: int|
            0 <= t < r@.len() ==> wire_route_ok(#[trigger] r@[t]) && r@[t].path@.len() >= 1,
        r@[0].id@ == "route-flash-1"@ && r@[0].lane_id == LaneId(0) && r@[0].latency_ms == 50
            && r@[0].cost == 100 && r@[0].path@.len() == 2,
        r@[1].id@ == "route-deep-1"@ && r@[1].lane_id == LaneId(1) && r@[1].latency_ms == 150
            && r@[1].cost == 80 && r@[1].path@.len() == 3,
{
    let mut flash_path: Vec<String> = Vec::new();
    flash_path.push("node-1".to_owned());
    flash_path.push("node-2".to_owned());
    let mut deep_path: Vec<String> = Vec::new();
    deep_path.push("node-3".to_owned());
    deep_path.push("node-4".to_owned());
    deep_path.push("node-5".to_owned());
    let flash = Route {
        id: "route-flash-1".to_owned(),
        lane_id: LaneId(0),
        path: flash_path,
        latency_ms: 50,
        cost: 100,
    };
    let deep = Route {
        id: "route-deep-1".to_owned(),
        lane_id: LaneId(1),
        path: deep_path,
        latency_ms: 150,
        cost: 80,
    };
    proof {
        reveal_strlit("route-flash-1");
        reveal_strlit("route-deep-1");
        reveal_strlit("node-1");
        reveal_strlit("node-2");
        reveal_strlit("node-3");
        reveal_strlit("node-4");
        reveal_strlit("node-5");
        assert(crate::wire::wire_str_ok(flash.id@));
        assert(crate::wire::wire_str_ok(deep.id@));
        assert forall|t: int|
            0 <= t < strs_view(flash.path@).len() implies crate::wire::wire_str_ok(
            #[trigger] strs_view(flash.path@)[t],
        ) by {
            assert(strs_view(flash.path@)[t] == flash.path@[t]@);
        }
        assert forall|t: int|
            0 <= t < strs_view(deep.path@).len() implies crate::wire::wire_str_ok(
            #[trigger] strs_view(deep.path@)[t],
        ) by {
            assert(strs_view(deep.path@)[t] == deep.path@[t]@);
        }
    }
    let mut v: Vec<Route> = Vec::new();
    v.push(flash);
    v.push(deep);
    v
}

/// Whether the bytes spell a storable provider within its capacity.
pub open spec fn spec_provider_record_ok(bytes: Seq<u8>) -> bool {
    exists|p: ComputeProvider|
        wire_provider_ok(p) && p.utilization <= p.capacity && bytes == #[trigger] enc_provider(p)
}

/// Whether the bytes spell a storable route with a nonempty path.
pub open spec fn spec_route_record_ok(bytes: Seq<u8>) -> bool {
    exists|rt: Route| wire_route_ok(rt) && rt.path@.len() >= 1 && bytes == #[trigger] enc_route(rt)
}

/// Whether the bytes spell sound statistics.
pub open spec fn spec_stats_record_ok(bytes: Seq<u8>) -> bool {
    exists|st: AuctionStats| spec_stats_wf(st) && bytes == #[trigger] enc_stats(st)
}

/// Decodes a provider pool from its stored records, in order: succeeds
/// exactly when every record spells a storable provider within its
/// capacity, and then yields their decodes record for record.
fn decode_providers(raw: &Vec<Vec<u8>>) -> (r: Result<Vec<ComputeProvider>, GixError>)
    ensures
        r matches Ok(ps) ==> {
            &&& ps@.len() == raw@.len()
            &&& forall|t: int|
                0 <= t < raw@.len() ==> wire_provider_ok(#[trigger] ps@[t])
                    && ps@[t].utilization <= ps@[t].capacity && raw@[t]@ == enc_provider(ps@[t])
        },
        r matches Err(e) ==> e is InternalError && (exists|t: int|
            0 <= t < raw@.len() && !spec_provider_record_ok(#[trigger] raw@[t]@)),
        (forall|t: int| 0 <= t < raw@.len() ==> spec_provider_record_ok(#[trigger] raw@[t]@))
            ==> r is Ok,
{
    let n = raw.len();
    let mut out: Vec<ComputeProvider> = Vec::new();
    let mut k: usize = 0;
    while k < n
        invariant
            n == raw@.len(),
            0 <= k <= n,
            out@.len() == k,
            forall|t: int|
                0 <= t < k ==> wire_provider_ok(#[trigger] out@[t]) && out@[t].utilization
                    <= out@[t].capacity && raw@[t]@ == enc_provider(out@[t]),
        decreases n - k,
    {
        let p = match provider_from_store(raw[k].as_slice()) {
            Some(p) => p,
            None => {
                proof {
                    if spec_provider_record_ok(raw@[k as int]@) {
                        let q = choose|q: ComputeProvider|
                            wire_provider_ok(q) && q.utilization <= q.capacity && raw@[k as int]@
                                == enc_provider(q);
                        assert(wire_provider_ok(q) && raw@[k as int]@ == enc_provider(q));
                        assert(false);
                    }
                }
                return Err(
                    GixError::InternalError("stored provider does not decode".to_owned()),
                );
            },
        };
        if p.utilization > p.capacity {
            proof {
                if spec_provider_record_ok(raw@[k as int]@) {
                    let q = choose|q: ComputeProvider|
                        wire_provider_ok(q) && q.utilization <= q.capacity && raw@[k as int]@
                            == enc_provider(q);
                    assert(wire_provider_ok(q) && raw@[k as int]@ == enc_provider(q));
                    assert(crate::persist::provider_eqv(p, q));
                    assert(false);
                }
            }
            return Err(GixError::InternalError("stored provider over capacity".to_owned()));
        }
        out.push(p);
        k += 1;
    }
    Ok(out)
}

/// Decodes a route set from its stored records, in order: succeeds
/// exactly when every record spells a storable route with a nonempty
/// path, and then yields their decodes record for record.
fn decode_routes(raw: &Vec<Vec<u8>>) -> (r: Result<Vec<Route>, GixError>)
    ensures
        r matches Ok(rs) ==> {
            &&& rs@.len() == raw@.len()
            &&& forall|t: int|
                0 <= t < raw@.len() ==> wire_route_ok(#[trigger] rs@[t]) && rs@[t].path@.len() >= 1
                    && raw@[t]@ == enc_route(rs@[t])
        },
        r matches Err(e) ==> e is InternalError && (exists|t: int|
            0 <= t < raw@.len() && !spec_route_record_ok(#[trigger] raw@[t]@)),
        (forall|t: int| 0 <= t < raw@.len() ==> spec_route_record_ok(#[trigger] raw@[t]@)) ==> r
            is Ok,
{
    let n = raw.len();
    let mut out: Vec<Route> = Vec::new();
    let mut k: usize = 0;
    while k < n
        invariant
            n == raw@.len(),
            0 <= k <= n,
            out@.len() == k,
            forall|t: int|
                0 <= t < k ==> wire_route_ok(#[trigger] out@[t]) && out@[t].path@.len() >= 1
                    && raw@[t]@ == enc_route(out@[t]),
        decreases n - k,
    {
        let rt = match route_from_store(raw[k].as_slice()) {
            Some(rt) => rt,
            None => {
                proof {
                    if spec_route_record_ok(raw@[k as int]@) {
                        let q = choose|q: Route|
                            wire_route_ok(q) && q.path@.len() >= 1 && raw@[k as int]@ == enc_route(
                                q,
                            );
                        assert(wire_route_ok(q) && raw@[k as int]@ == enc_route(q));
                        assert(false);
                    }
                }
                return Err(GixError::InternalError("stored route does not decode".to_owned()));
            },
        };
        if rt.path.len() == 0 {
            proof {
                if spec_route_record_ok(raw@[k as int]@) {
                    let q = choose|q: Route|
                        wire_route_ok(q) && q.path@.len() >= 1 && raw@[k as int]@ == enc_route(q);
                    assert(wire_route_ok(q) && raw@[k as int]@ == enc_route(q));
                    assert(crate::persist::route_eqv(rt, q));
                    assert(crate::persist::strs_view(rt.path@).len() == crate::persist::strs_view(
                        q.path@,
                    ).len());
                    assert(false);
                }
            }
            return Err(GixError::InternalError("stored route has no path".to_owned()));
        }
        out.push(rt);
        k += 1;
    }
    Ok(out)
}

/// Decodes the statistics from their stored record: succeeds exactly when
/// the record spells sound statistics, and then yields them.
fn decode_stats(bytes: &Vec<u8>) -> (r: Result<AuctionStats, GixError>)
    ensures
        r matches Ok(st) ==> spec_stats_wf(st) && bytes@ == enc_stats(st),
        r matches Err(e) ==> e is InternalError && !spec_stats_record_ok(bytes@),
        spec_stats_record_ok(bytes@) ==> r is Ok,
{
    let st = match stats_from_store(bytes.as_slice()) {
        Some(st) => st,
        None => {
            proof {
                if spec_stats_record_ok(bytes@) {
                    let q = choose|q: AuctionStats| spec_stats_wf(q) && bytes@ == enc_stats(q);
                    assert(bytes@ == enc_stats(q));
                    assert(false);
                }
            }
            return Err(GixError::InternalError("stored statistics do not decode".to_owned()));
        },
    };
    let sound = st.total_matches <= u64::MAX - st.total_unmatched && st.total_matches
        + st.total_unmatched <= st.total_auctions;
    if !sound {
        proof {
            if spec_stats_record_ok(bytes@) {
                let q = choose|q: AuctionStats| spec_stats_wf(q) && bytes@ == enc_stats(q);
                assert(bytes@ == enc_stats(q));
                assert(crate::persist::stats_eqv(st, q));
                assert(false);
            }
        }
        return Err(GixError::InternalError("stored statistics inconsistent".to_owned()));
    }
    Ok(st)
}

impl AuctionEngine {
    /// Opens or creates an engine on the given directory: providers,
    /// routes and statistics load from the store; an empty provider or
    /// route partition is seeded with the default pool. A record that does
    /// not decode, a provider over its capacity, or inconsistent counters
    /// fail the start.
    pub fn new(db_path: &str) -> (r: Result<Self, GixError>)
        ensures
            r matches Ok(e) ==> spec_engine_wf(e),
            r matches Err(e) ==> e is InternalError,
    {
        let db = match open_db(db_path) {
            Ok(d) => d,
            Err(e) => {
                return Err(e);
            },
        };
        let providers_tree = match open_tree(&db, "providers") {
            Ok(t) => t,
            Err(e) => {
                return Err(e);
            },
        };
        let routes_tree = match open_tree(&db, "routes") {
            Ok(t) => t,
            Err(e) => {
                return Err(e);
            },
        };
        let stats_tree = match open_tree(&db, "stats") {
            Ok(t) => t,
            Err(e) => {
                return Err(e);
            },
        };
        // providers: decode every stored record, or seed on empty
        let raw_providers = match tree_values(&providers_tree) {
            Ok(v) => v,
            Err(e) => {
                return Err(e);
            },
        };
        let mut providers: Vec<ComputeProvider> = Vec::new();
        if raw_providers.len() == 0 {
            providers = seed_providers();
            let n = providers.len();
            let mut k: usize = 0;
            while k < n
                invariant
                    n == providers@.len(),
                    0 <= k <= n,
                    forall|t: int|
                        0 <= t < providers@.len() ==> (#[trigger] providers@[t]).utilization
                            <= providers@[t].capacity && wire_provider_ok(providers@[t]),
                decreases n - k,
            {
                let bytes = match provider_to_store(&providers[k]) {
                    Some(b) => b,
                    None => {
                        proof {
                            assert(false);
                        }
                        return Err(GixError::CryptoFailure);
                    },
                };
                if let Err(e) = tree_insert(&providers_tree, providers[k].slp_id.0.as_str().as_bytes(), bytes) {
                    return Err(e);
                }
                k += 1;
            }
            if let Err(e) = tree_flush(&providers_tree) {
                return Err(e);
            }
        } else {
            providers = match decode_providers(&raw_providers) {
                Ok(ps) => ps,
                Err(e) => {
                    return Err(e);
                },
            };
        }
        // routes: decode every stored record, or seed on empty
        let raw_routes = match tree_values(&routes_tree) {
            Ok(v) => v,
            Err(e) => {
                return Err(e);
            },
        };
        let mut routes: Vec<Route> = Vec::new();
        if raw_routes.len() == 0 {
            routes = seed_routes();
            let n = routes.len();
            let mut k: usize = 0;
            while k < n
                invariant
                    n == routes@.len(),
                    0 <= k <= n,
                    forall|t: int|
                        0 <= t < routes@.len() ==> wire_route_ok(#[trigger] routes@[t])
                            && routes@[t].path@.len() >= 1,
                decreases n - k,
            {
                let bytes = match route_to_store(&routes[k]) {
                    Some(b) => b,
                    None => {
                        proof {
                            assert(false);
                        }
                        return Err(GixError::CryptoFailure);
                    },
                };
                if let Err(e) = tree_insert(&routes_tree, routes[k].id.as_str().as_bytes(), bytes) {
                    return Err(e);
                }
                k += 1;
            }
            if let Err(e) = tree_flush(&routes_tree) {
                return Err(e);
            }
        } else {
            routes = match decode_routes(&raw_routes) {
                Ok(rs) => rs,
                Err(e) => {
                    return Err(e);
                },
            };
        }
        // statistics: decode the single record, or default to zero
        let stats = match tree_get(&stats_tree, "stats".as_bytes()) {
            Ok(Some(bytes)) => {
                match decode_stats(&bytes) {
                    Ok(st) => st,
                    Err(e) => {
                        return Err(e);
                    },
                }
            },
            Ok(None) => AuctionStats {
                total_auctions: 0,
                total_matches: 0,
                total_unmatched: 0,
                total_volume: 0,
                matches_by_precision: PrecisionCounts::zero(),
                matches_by_lane: Vec::new(),
            },
            Err(e) => {
                return Err(e);
            },
        };
        Ok(AuctionEngine { db, providers_tree, routes_tree, stats_tree, providers, routes, stats })
    }

    /// Writes every provider and the statistics through to the store and
    /// forces it to stable storage.
    pub fn flush(&self) -> (r: Result<(), GixError>)
        requires
            spec_engine_wf(*self),
        ensures
            r matches Err(e) ==> e is InternalError,
    {
        let n = self.providers.len();
        let mut k: usize = 0;
        while k < n
            invariant
                n == self.providers@.len(),
                0 <= k <= n,
                spec_engine_wf(*self),
            decreases n - k,
        {
            let bytes = match provider_to_store(&self.providers[k]) {
                Some(b) => b,
                None => {
                    proof {
                        assert(false);
                    }
                    return Err(GixError::CryptoFailure);
                },
            };
            if let Err(e) = tree_insert(
                &self.providers_tree,
                self.providers[k].slp_id.0.as_str().as_bytes(),
                bytes,
            ) {
                return Err(e);
            }
            k += 1;
        }
        let sbytes = stats_to_store(&self.stats);
        if let Err(e) = tree_insert(&self.stats_tree, "stats".as_bytes(), sbytes) {
            return Err(e);
        }
        if let Err(e) = tree_flush(&self.providers_tree) {
            return Err(e);
        }
        if let Err(e) = tree_flush(&self.stats_tree) {
            return Err(e);
        }
        db_flush(&self.db)
    }

    /// Runs one auction: matches the job against the pool, prices it at
    /// the winning provider, chooses a route for the priority, commits the
    /// match to the working set, and writes the changed provider and the
    /// statistics through to the store. Success is reported only after the
    /// write-through succeeded.
    pub fn run_auction(&mut self, job: &GxfJob, priority: u8) -> (r: Result<AuctionMatch, GixError>)
        requires
            spec_engine_wf(*old(self)),
        ensures
            spec_engine_wf(*final(self)),
            spec_auction_outcome(*old(self), *final(self), job@, priority, r),
    {
        proof {
            crate::auction::lemma_winner_props(self.providers@, job@);
        }
        let c = match select_provider(&self.providers, job) {
            Some(c) => c,
            None => {
                return Err(GixError::InternalError("No matching providers found".to_owned()));
            },
        };
        let rt = match select_route(&self.routes, priority) {
            Some(rt) => rt,
            None => {
                return Err(GixError::InternalError("No route available".to_owned()));
            },
        };
        proof {
            crate::auction::lemma_best_route_props(
                self.routes@,
                Some(crate::auction::spec_primary_lane(priority)),
            );
            crate::auction::lemma_best_route_props(self.routes@, None);
        }
        let price = self.providers[c].calculate_price(job);
        let lane = self.routes[rt].lane_id.0;
        // refuse to wrap any counter
        if self.stats.total_auctions == u64::MAX || self.stats.total_matches == u64::MAX {
            return Err(GixError::InternalError("counter at limit".to_owned()));
        }
        if self.stats.total_volume > u64::MAX - price {
            return Err(GixError::InternalError("counter at limit".to_owned()));
        }
        if self.stats.matches_by_precision.get(job.precision) == u64::MAX {
            return Err(GixError::InternalError("counter at limit".to_owned()));
        }
        if lane_count_of(&self.stats.matches_by_lane, lane) == u64::MAX {
            return Err(GixError::InternalError("counter at limit".to_owned()));
        }
        // commit to the working set
        self.stats.total_auctions = self.stats.total_auctions + 1;
        self.stats.total_matches = self.stats.total_matches + 1;
        self.stats.total_volume = self.stats.total_volume + price;
        let mut counts = self.stats.matches_by_precision;
        counts.bump(job.precision);
        self.stats.matches_by_precision = counts;
        lane_bump_vec(&mut self.stats.matches_by_lane, lane);
        let winner = &self.providers[c];
        let mut precisions: Vec<PrecisionLevel> = Vec::new();
        let np = winner.supported_precisions.len();
        let mut k: usize = 0;
        while k < np
            invariant
                c < self.providers@.len(),
                np == self.providers@[c as int].supported_precisions@.len(),
                0 <= k <= np,
                precisions@ =~= self.providers@[c as int].supported_precisions@.subrange(
                    0,
                    k as int,
                ),
            decreases np - k,
        {
            precisions.push(self.providers[c].supported_precisions[k]);
            proof {
                assert(precisions@ =~= self.providers@[c as int].supported_precisions@.subrange(
                    0,
                    k + 1,
                ));
            }
            k += 1;
        }
        proof {
            assert(self.providers@[c as int].supported_precisions@.subrange(0, np as int)
                =~= self.providers@[c as int].supported_precisions@);
        }
        let updated = ComputeProvider {
            slp_id: SlpId(self.providers[c].slp_id.0.clone()),
            supported_precisions: precisions,
            base_price: self.providers[c].base_price,
            capacity: self.providers[c].capacity,
            utilization: self.providers[c].utilization + 1,
            region: self.providers[c].region.clone(),
        };
        self.providers.set(c, updated);
        proof {
            assert(crate::persist::provider_eqv(
                self.providers@[c as int],
                ComputeProvider {
                    utilization: (old(self).providers@[c as int].utilization + 1) as u32,
                    ..old(self).providers@[c as int]
                },
            ));
        }
        // write the changed provider and the statistics through
        let pbytes = match provider_to_store(&self.providers[c]) {
            Some(b) => b,
            None => {
                proof {
                    assert(false);
                }
                return Err(GixError::CryptoFailure);
            },
        };
        if let Err(e) = tree_insert(
            &self.providers_tree,
            self.providers[c].slp_id.0.as_str().as_bytes(),
            pbytes,
        ) {
            return Err(e);
        }
        let sbytes = stats_to_store(&self.stats);
        if let Err(e) = tree_insert(&self.stats_tree, "stats".as_bytes(), sbytes) {
            return Err(e);
        }
        if let Err(e) = tree_flush(&self.providers_tree) {
            return Err(e);
        }
        if let Err(e) = tree_flush(&self.stats_tree) {
            return Err(e);
        }
        let path = clone_strings(&self.routes[rt].path);
        Ok(
            AuctionMatch {
                job_id: job.job_id,
                slp_id: SlpId(self.providers[c].slp_id.0.clone()),
                lane_id: LaneId(lane),
                price,
                route: path,
            },
        )
    }

    /// A snapshot of the auction counters.
    pub fn get_stats(&self) -> (r: AuctionStats)
        ensures
            crate::persist::stats_eqv(r, self.stats),
    {
        AuctionStats {
            total_auctions: self.stats.total_auctions,
            total_matches: self.stats.total_matches,
            total_unmatched: self.stats.total_unmatched,
            total_volume: self.stats.total_volume,
            matches_by_precision: self.stats.matches_by_precision,
            matches_by_lane: clone_lanes(&self.stats.matches_by_lane),
        }
    }
}

/// The outcome of one auction call on an envelope at time `now`: a
/// rejected envelope is reported and changes nothing; otherwise the
/// auction runs on the job the payload spells.
pub open spec fn spec_process_outcome(
    pre: AuctionEngine,
    post: AuctionEngine,
    env: crate::gxf::GxfEnvelopeView,
    now: u64,
    r: Result<AuctionMatch, EngineError>,
) -> bool {
    match spec_env_validate(env, now) {
        Err(e) => r == Result::<AuctionMatch, EngineError>::Err(EngineError::Envelope(e))
            && spec_engine_unchanged(pre, post),
        Ok(_) => {
            let j = crate::codec::payload_job(env.payload);
            match r {
                Ok(m) => spec_auction_outcome(pre, post, j, env.meta.priority, Ok(m)),
                Err(EngineError::Envelope(_)) => false,
                Err(EngineError::Auction(e)) => spec_auction_outcome(
                    pre,
                    post,
                    j,
                    env.meta.priority,
                    Err(e),
                ),
            }
        },
    }
}

/// An error of the auction entry path.
#[derive(Debug, Clone, PartialEq, Eq)]
pub enum EngineError {
    /// The envelope failed validation.
    Envelope(GxfError),
    /// The auction failed.
    Auction(GixError),
}

/// Runs an auction on the job of an envelope at time `now`: validates the
/// envelope, reads the job, and auctions it.
pub fn process_envelope_at(engine: &mut AuctionEngine, envelope: &GxfEnvelope, now: u64) -> (r:
    Result<AuctionMatch, EngineError>)
    requires
        spec_engine_wf(*old(engine)),
    ensures
        spec_engine_wf(*final(engine)),
        spec_process_outcome(*old(engine), *final(engine), envelope@, now, r),
{
    if let Err(e) = envelope.validate_at(now) {
        return Err(EngineError::Envelope(e));
    }
    let job = match envelope.deserialize_job() {
        Ok(j) => j,
        Err(_) => {
            proof {
                assert(false);
            }
            return Err(EngineError::Envelope(GxfError::InvalidPayload));
        },
    };
    if let Err(e) = job.validate() {
        proof {
            assert(false);
        }
        return Err(EngineError::Envelope(e));
    }
    match engine.run_auction(&job, envelope.meta.priority) {
        Ok(m) => Ok(m),
        Err(e) => Err(EngineError::Auction(e)),
    }
}

/// Runs an auction on the job of an envelope against the system clock.
pub fn process_envelope(engine: &mut AuctionEngine, envelope: &GxfEnvelope) -> (r: Result<
    AuctionMatch,
    EngineError,
>)
    requires
        spec_engine_wf(*old(engine)),
    ensures
        spec_engine_wf(*final(engine)),
        exists|now: u64|
            #[trigger] spec_process_outcome(*old(engine), *final(engine), envelope@, now, r),
{
    let now = current_unix_seconds();
    process_envelope_at(engine, envelope, now)
}

} // verus!
