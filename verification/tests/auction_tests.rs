//! Tests of matching, pricing and route selection.

use gix_core::auction::{select_provider, select_route};
use gix_core::{ComputeProvider, GxfJob, JobId, LaneId, PrecisionLevel, Route, SlpId};

fn provider(slp: &str, precisions: Vec<PrecisionLevel>, base: u64, cap: u32, util: u32)
    -> ComputeProvider {
    ComputeProvider {
        slp_id: SlpId(slp.to_string()),
        supported_precisions: precisions,
        base_price: base,
        capacity: cap,
        utilization: util,
        region: "US".to_string(),
    }
}

#[test]
fn pricing_matches_the_formula() {
    // base 1000, sequence 1024: 1000 + 10240 = 11240; doubled for the
    // highest precision: 22480; times 1 + 0.5 * 30/100: 25852
    let p = provider("slp-a", vec![PrecisionLevel::BF16], 1000, 100, 30);
    let job = GxfJob::new(JobId([0u8; 16]), PrecisionLevel::BF16, 1024);
    assert_eq!(p.calculate_price(&job), 25852);
}

#[test]
fn pricing_multipliers_order_the_precisions() {
    let job_int8 = GxfJob::new(JobId([0u8; 16]), PrecisionLevel::INT8, 1000);
    let job_e5m2 = GxfJob::new(JobId([0u8; 16]), PrecisionLevel::E5M2, 1000);
    let job_fp8 = GxfJob::new(JobId([0u8; 16]), PrecisionLevel::FP8, 1000);
    let job_bf16 = GxfJob::new(JobId([0u8; 16]), PrecisionLevel::BF16, 1000);
    let all = vec![
        PrecisionLevel::BF16,
        PrecisionLevel::FP8,
        PrecisionLevel::E5M2,
        PrecisionLevel::INT8,
    ];
    // base 0, sequence 1000 gives a raw price of 10000, at zero load
    let p = provider("slp-a", all, 0, 10, 0);
    assert_eq!(p.calculate_price(&job_int8), 10000);
    assert_eq!(p.calculate_price(&job_e5m2), 12000);
    assert_eq!(p.calculate_price(&job_fp8), 15000);
    assert_eq!(p.calculate_price(&job_bf16), 20000);
}

#[test]
fn can_handle_requires_precision_and_capacity() {
    let p = provider("slp-a", vec![PrecisionLevel::FP8], 10, 2, 2);
    let job = GxfJob::new(JobId([0u8; 16]), PrecisionLevel::FP8, 1);
    assert!(!p.can_handle(&job));
    let p2 = provider("slp-a", vec![PrecisionLevel::FP8], 10, 2, 1);
    assert!(p2.can_handle(&job));
    let job_other = GxfJob::new(JobId([0u8; 16]), PrecisionLevel::BF16, 1);
    assert!(!p2.can_handle(&job_other));
}

#[test]
fn cheapest_provider_wins_and_ties_go_to_the_earliest() {
    let job = GxfJob::new(JobId([0u8; 16]), PrecisionLevel::INT8, 100);
    let a = provider("slp-a", vec![PrecisionLevel::INT8], 500, 10, 0);
    let b = provider("slp-b", vec![PrecisionLevel::INT8], 400, 10, 0);
    let c = provider("slp-c", vec![PrecisionLevel::INT8], 400, 10, 0);
    let pool = vec![a, b, c];
    // b and c price equally; b stands earlier
    assert_eq!(select_provider(&pool, &job), Some(1));
}

#[test]
fn unsupported_precision_finds_no_provider() {
    let job = GxfJob::new(JobId([0u8; 16]), PrecisionLevel::E5M2, 100);
    let pool = vec![provider("slp-a", vec![PrecisionLevel::INT8], 500, 10, 0)];
    assert_eq!(select_provider(&pool, &job), None);
}

fn route(id: &str, lane: u8, latency: u64, cost: u64) -> Route {
    Route {
        id: id.to_string(),
        lane_id: LaneId(lane),
        path: vec!["node-a".to_string()],
        latency_ms: latency,
        cost,
    }
}

#[test]
fn route_selection_prefers_the_primary_lane() {
    let routes = vec![route("r0", 0, 50, 100), route("r1", 1, 1, 1)];
    // high priority asks for the express lane even though the bulk route
    // scores lower
    assert_eq!(select_route(&routes, 200), Some(0));
    assert_eq!(select_route(&routes, 50), Some(1));
}

#[test]
fn route_selection_falls_back_across_lanes() {
    let routes = vec![route("r1", 1, 150, 80)];
    // no express route exists, so the bulk route serves high priority too
    assert_eq!(select_route(&routes, 200), Some(0));
    let none: Vec<Route> = Vec::new();
    assert_eq!(select_route(&none, 200), None);
}

#[test]
fn route_score_orders_by_latency_then_cost() {
    let fast = route("fast", 0, 50, 100);
    let slow = route("slow", 0, 150, 80);
    assert_eq!(fast.score_micros(), 50 * 1000 + 100);
    assert!(fast.score_micros() < slow.score_micros());
    let routes = vec![slow, fast];
    assert_eq!(select_route(&routes, 200), Some(1));
}
