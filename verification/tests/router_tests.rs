//! Tests of the router: lane selection, capacity and counters.

use gix_core::router::{process_envelope, process_envelope_at, RouterError};
use gix_core::{GxfEnvelope, GxfError, GxfJob, GxfMetadata, JobId, LaneId, PrecisionLevel,
    RouterState};

fn valid_envelope(priority: u8) -> GxfEnvelope {
    let job = GxfJob::new(JobId([7u8; 16]), PrecisionLevel::BF16, 1024);
    GxfEnvelope::from_job(job, priority).unwrap()
}

#[test]
fn high_priority_takes_the_express_lane() {
    let mut router = RouterState::new();
    let envelope = valid_envelope(150);
    let lane = process_envelope(&mut router, &envelope).unwrap();
    assert_eq!(lane, LaneId(0));
    let stats = router.get_stats();
    assert_eq!(stats.total_routed, 1);
    assert_eq!(stats.lane_stats, vec![(0u8, 1u64)]);
    assert_eq!(router.lanes[0].active_jobs, 1);
    assert_eq!(router.lanes[1].active_jobs, 0);
}

#[test]
fn low_priority_takes_the_bulk_lane() {
    let mut router = RouterState::new();
    let envelope = valid_envelope(64);
    let lane = process_envelope(&mut router, &envelope).unwrap();
    assert_eq!(lane, LaneId(1));
    assert_eq!(router.lanes[1].active_jobs, 1);
}

#[test]
fn expired_envelope_is_rejected_and_counts_stay() {
    let mut router = RouterState::new();
    let job = GxfJob::new(JobId([7u8; 16]), PrecisionLevel::BF16, 1024);
    let mut envelope = GxfEnvelope::from_job(job, 150).unwrap();
    envelope.meta.created_at = 1000;
    envelope.meta.expires_at = Some(1001);
    let r = process_envelope_at(&mut router, &envelope, 2000);
    assert_eq!(
        r,
        Err(RouterError::Envelope(GxfError::Expired { expires_at: 1001, current_time: 2000 }))
    );
    let stats = router.get_stats();
    assert_eq!(stats.total_routed, 0);
    assert!(stats.lane_stats.is_empty());
    assert_eq!(router.lanes[0].active_jobs, 0);
}

#[test]
fn full_primary_lane_falls_back_to_the_other() {
    let mut router = RouterState::new();
    router.lanes[0].active_jobs = router.lanes[0].capacity;
    let envelope = valid_envelope(200);
    let lane = process_envelope(&mut router, &envelope).unwrap();
    assert_eq!(lane, LaneId(1));
}

#[test]
fn full_router_reports_all_lanes_at_capacity() {
    let mut router = RouterState::new();
    router.lanes[0].active_jobs = router.lanes[0].capacity;
    router.lanes[1].active_jobs = router.lanes[1].capacity;
    let envelope = valid_envelope(150);
    let r = process_envelope(&mut router, &envelope);
    assert_eq!(r, Err(RouterError::AllLanesAtCapacity));
    assert_eq!(router.get_stats().total_routed, 0);
}

#[test]
fn malformed_envelope_is_rejected() {
    let mut router = RouterState::new();
    let mut envelope = valid_envelope(150);
    envelope.meta.schema_version = 9;
    let r = process_envelope(&mut router, &envelope);
    assert_eq!(
        r,
        Err(RouterError::Envelope(GxfError::InvalidVersion { expected: 3, actual: 9 }))
    );
}
