//! Tests of the durable auction engine: seeding, matching, persistence
//! across restarts, and capacity exhaustion.

use gix_core::clock::current_unix_seconds;
use gix_core::store::process_envelope;
use gix_core::{AuctionEngine, GxfEnvelope, GxfJob, JobId, LaneId, PrecisionLevel};

fn fresh_dir(prefix: &str) -> String {
    format!("/tmp/{}_{}", prefix, current_unix_seconds())
}

fn job(precision: PrecisionLevel, seq_len: u32) -> GxfJob {
    GxfJob::new(JobId([3u8; 16]), precision, seq_len)
}

#[test]
fn seeded_engine_matches_and_prices_the_default_pool() {
    let dir = fresh_dir("gcam_engine_seed");
    let mut engine = AuctionEngine::new(&dir).unwrap();
    let m = engine.run_auction(&job(PrecisionLevel::BF16, 1024), 150).unwrap();
    // the EU seed provider runs at a lighter load and underbids the US
    // one here: 1200 + 10240, doubled, times 1 + 0.5 * 20/80 is 25740
    assert_eq!(m.slp_id.0, "slp-eu-west-1");
    assert_eq!(m.price, 25740);
    assert_eq!(m.lane_id, LaneId(0));
    assert_eq!(m.route, vec!["node-1".to_string(), "node-2".to_string()]);
    let stats = engine.get_stats();
    assert_eq!(stats.total_auctions, 1);
    assert_eq!(stats.total_matches, 1);
    assert_eq!(stats.total_volume, 25740);
    assert_eq!(stats.matches_by_precision.bf16, 1);
    assert_eq!(stats.matches_by_lane, vec![(0u8, 1u64)]);
}

#[test]
fn low_priority_jobs_ride_the_bulk_route() {
    let dir = fresh_dir("gcam_engine_bulk");
    let mut engine = AuctionEngine::new(&dir).unwrap();
    let m = engine.run_auction(&job(PrecisionLevel::INT8, 100), 50).unwrap();
    assert_eq!(m.lane_id, LaneId(1));
    assert_eq!(m.route.len(), 3);
}

#[test]
fn auction_updates_provider_utilization() {
    let dir = fresh_dir("gcam_engine_util");
    let mut engine = AuctionEngine::new(&dir).unwrap();
    let before = engine.providers[0].utilization;
    let m = engine.run_auction(&job(PrecisionLevel::E5M2, 64), 150).unwrap();
    // only the US seed provider runs this precision
    assert_eq!(m.slp_id.0, "slp-us-east-1");
    assert_eq!(engine.providers[0].utilization, before + 1);
    assert!(engine.providers[0].utilization <= engine.providers[0].capacity);
}

#[test]
fn stats_survive_a_restart() {
    let dir = fresh_dir("gcam_engine_restart");
    let before = {
        let mut engine = AuctionEngine::new(&dir).unwrap();
        engine.run_auction(&job(PrecisionLevel::BF16, 1024), 150).unwrap();
        engine.flush().unwrap();
        engine.get_stats()
    };
    let reopened = AuctionEngine::new(&dir).unwrap();
    let after = reopened.get_stats();
    assert_eq!(after.total_auctions, before.total_auctions, "Total auctions should persist");
    assert_eq!(after.total_matches, before.total_matches, "Total matches should persist");
    assert_eq!(after.total_volume, before.total_volume, "Total volume should persist");
    assert_eq!(after.matches_by_precision, before.matches_by_precision);
    assert_eq!(after.matches_by_lane, before.matches_by_lane);

    let mut reopened = reopened;
    reopened.run_auction(&job(PrecisionLevel::BF16, 1024), 150).unwrap();
    assert_eq!(reopened.get_stats().total_auctions, before.total_auctions + 1);
}

#[test]
fn provider_utilization_survives_a_restart() {
    let dir = fresh_dir("gcam_engine_util_restart");
    let util_after_run = {
        let mut engine = AuctionEngine::new(&dir).unwrap();
        engine.run_auction(&job(PrecisionLevel::E5M2, 512), 99).unwrap();
        engine.providers[0].utilization
    };
    let reopened = AuctionEngine::new(&dir).unwrap();
    let us = reopened
        .providers
        .iter()
        .find(|p| p.slp_id.0 == "slp-us-east-1")
        .expect("seed provider present");
    assert_eq!(us.utilization, util_after_run);
}

#[test]
fn a_full_pool_reports_no_match() {
    let dir = fresh_dir("gcam_engine_capacity");
    let mut engine = AuctionEngine::new(&dir).unwrap();
    // only the US seed provider runs this precision: spare room for
    // seventy jobs
    let spare = engine.providers[0].capacity - engine.providers[0].utilization;
    for k in 0..spare {
        let r = engine.run_auction(&job(PrecisionLevel::E5M2, 8), 150);
        assert!(r.is_ok(), "auction {} of {} should match", k + 1, spare);
    }
    let r = engine.run_auction(&job(PrecisionLevel::E5M2, 8), 150);
    assert!(r.is_err(), "a full pool must not match");
    let stats = engine.get_stats();
    assert_eq!(stats.total_matches, spare as u64);
}

#[test]
fn auction_entry_path_rejects_expired_envelopes() {
    let dir = fresh_dir("gcam_engine_expired");
    let mut engine = AuctionEngine::new(&dir).unwrap();
    let mut envelope = GxfEnvelope::from_job(job(PrecisionLevel::BF16, 1024), 150).unwrap();
    envelope.meta.created_at = 1;
    envelope.meta.expires_at = Some(2);
    let before = engine.get_stats();
    let r = process_envelope(&mut engine, &envelope);
    assert!(r.is_err());
    let after = engine.get_stats();
    assert_eq!(after.total_auctions, before.total_auctions);
}

#[test]
fn auction_entry_path_runs_a_valid_envelope() {
    let dir = fresh_dir("gcam_engine_entry");
    let mut engine = AuctionEngine::new(&dir).unwrap();
    let envelope = GxfEnvelope::from_job(job(PrecisionLevel::BF16, 1024), 150).unwrap();
    let m = process_envelope(&mut engine, &envelope).unwrap();
    assert_eq!(m.price, 25740);
}
