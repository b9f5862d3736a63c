//! Tests of the execution runtime: compliance policy and accounting.

use gix_core::runtime::process_envelope;
use gix_core::{
    ComplianceError, ExecutionStatus, GxfEnvelope, GxfJob, JobId, PrecisionLevel, RuntimeState,
};

fn job_with(params: &[(&str, &str)]) -> GxfJob {
    let mut job = GxfJob::new(JobId([0u8; 16]), PrecisionLevel::BF16, 1024);
    for (k, v) in params {
        job.set_parameter(k.to_string(), v.to_string());
    }
    job
}

#[test]
fn accepted_job_completes_and_is_counted() {
    let mut runtime = RuntimeState::new();
    let job = job_with(&[]);
    let result = runtime.execute_job(&job).unwrap();
    assert_eq!(result.status, ExecutionStatus::Completed);
    assert_eq!(result.job_id, job.job_id);
    // a millisecond per thousand elements, rounded up, plus ten
    assert_eq!(result.duration_ms, 12);
    let stats = runtime.get_stats();
    assert_eq!(stats.total_executed, 1);
    assert_eq!(stats.total_completed, 1);
    assert_eq!(stats.total_rejected, 0);
    assert_eq!(stats.jobs_by_precision.bf16, 1);
}

#[test]
fn foreign_region_is_a_residency_violation() {
    let mut runtime = RuntimeState::new();
    let job = job_with(&[("region", "APAC")]);
    let r = runtime.execute_job(&job);
    assert_eq!(r, Err(ComplianceError::ResidencyViolation));
    let stats = runtime.get_stats();
    assert_eq!(stats.total_executed, 0);
    assert_eq!(stats.total_rejected, 1);
}

#[test]
fn allowed_region_passes() {
    let mut runtime = RuntimeState::new();
    let job = job_with(&[("region", "EU")]);
    assert!(runtime.execute_job(&job).is_ok());
}

#[test]
fn oversized_sequence_is_a_shape_violation() {
    let mut runtime = RuntimeState::new();
    let job = GxfJob::new(JobId([0u8; 16]), PrecisionLevel::BF16, 9000);
    let r = runtime.execute_job(&job);
    assert_eq!(r, Err(ComplianceError::ShapeViolation));
}

#[test]
fn oversized_batch_is_a_shape_violation() {
    let mut runtime = RuntimeState::new();
    let job = job_with(&[("batch_size", "64")]);
    assert_eq!(runtime.execute_job(&job), Err(ComplianceError::ShapeViolation));
}

#[test]
fn unreadable_batch_size_is_ignored() {
    let mut runtime = RuntimeState::new();
    let job = job_with(&[("batch_size", "many")]);
    assert!(runtime.execute_job(&job).is_ok());
}

#[test]
fn required_residency_must_be_named_and_matched() {
    let mut runtime = RuntimeState::new();
    runtime.residency_requirements.required_residency = Some("EU".to_string());
    let missing = job_with(&[]);
    assert_eq!(runtime.execute_job(&missing), Err(ComplianceError::ResidencyViolation));
    let wrong = job_with(&[("residency", "US")]);
    assert_eq!(runtime.execute_job(&wrong), Err(ComplianceError::ResidencyViolation));
    let right = job_with(&[("residency", "EU")]);
    assert!(runtime.execute_job(&right).is_ok());
}

#[test]
fn unsupported_precision_is_a_precision_violation() {
    let mut runtime = RuntimeState::new();
    runtime.supported_precisions = vec![PrecisionLevel::INT8];
    let job = job_with(&[]);
    assert_eq!(runtime.execute_job(&job), Err(ComplianceError::PrecisionViolation));
}

#[test]
fn output_hash_is_deterministic_across_runtimes() {
    let mut a = RuntimeState::new();
    let mut b = RuntimeState::new();
    let job = GxfJob::new(JobId([0u8; 16]), PrecisionLevel::BF16, 64);
    let ra = a.execute_job(&job).unwrap();
    let rb = b.execute_job(&job).unwrap();
    assert_eq!(ra.output_hash, rb.output_hash);
}

#[test]
fn runtime_rejects_expired_envelopes() {
    let mut runtime = RuntimeState::new();
    let job = job_with(&[]);
    let mut envelope = GxfEnvelope::from_job(job, 64).unwrap();
    envelope.meta.created_at = 1;
    envelope.meta.expires_at = Some(2);
    // the envelope expired long ago
    let r = process_envelope(&mut runtime, &envelope);
    assert!(r.is_err());
    assert_eq!(runtime.get_stats().total_executed, 0);
}

#[test]
fn runtime_executes_a_valid_envelope() {
    let mut runtime = RuntimeState::new();
    let job = job_with(&[("region", "US")]);
    let envelope = GxfEnvelope::from_job(job, 64).unwrap();
    let result = process_envelope(&mut runtime, &envelope).unwrap();
    assert_eq!(result.status, ExecutionStatus::Completed);
    assert_eq!(runtime.get_stats().total_executed, 1);
}
