//! Tests of the exchange format: jobs, metadata, envelopes and their
//! validation.

use gix_core::clock::current_unix_seconds;
use gix_core::{
    parse_precision_tag, GxfEnvelope, GxfJob, GxfMetadata, JobId, JobPriority, PrecisionLevel,
    GXF_VERSION,
};

#[test]
fn test_precision_level_validation() {
    assert!(PrecisionLevel::BF16.is_valid());
    assert!(PrecisionLevel::FP8.is_valid());
    assert!(PrecisionLevel::E5M2.is_valid());
    assert!(PrecisionLevel::INT8.is_valid());
}

#[test]
fn test_job_priority() {
    assert_eq!(JobPriority::from_u8(0), JobPriority::Low);
    assert_eq!(JobPriority::from_u8(64), JobPriority::Normal);
    assert_eq!(JobPriority::from_u8(128), JobPriority::High);
    assert_eq!(JobPriority::from_u8(192), JobPriority::Critical);
}

#[test]
fn test_job_priority_as_u8() {
    assert_eq!(JobPriority::Low.as_u8(), 0);
    assert_eq!(JobPriority::Normal.as_u8(), 64);
    assert_eq!(JobPriority::High.as_u8(), 128);
    assert_eq!(JobPriority::Critical.as_u8(), 192);
}

#[test]
fn test_gxf_job_creation() {
    let job_id = JobId([0u8; 16]);
    let job = GxfJob::new(job_id, PrecisionLevel::BF16, 1024);
    assert_eq!(job.job_id, job_id);
    assert_eq!(job.precision, PrecisionLevel::BF16);
    assert_eq!(job.kv_cache_seq_len, 1024);
}

#[test]
fn test_gxf_job_validation() {
    let job_id = JobId([0u8; 16]);
    let job = GxfJob::new(job_id, PrecisionLevel::BF16, 1024);
    assert!(job.validate().is_ok());

    // Invalid: zero sequence length
    let invalid_job = GxfJob::new(job_id, PrecisionLevel::BF16, 0);
    assert!(invalid_job.validate().is_err());
}

#[test]
fn test_gxf_metadata_creation() {
    let meta = GxfMetadata::new(64).unwrap();
    assert_eq!(meta.schema_version, GXF_VERSION);
    assert_eq!(meta.priority, 64);
    assert!(meta.created_at > 0);
    assert!(meta.expires_at.is_none());
}

#[test]
fn test_gxf_metadata_validation() {
    let meta = GxfMetadata::new(64).unwrap();
    assert!(meta.validate().is_ok());

    // Invalid: wrong schema version
    let mut invalid_meta = meta.clone();
    invalid_meta.schema_version = 99;
    assert!(invalid_meta.validate().is_err());
}

#[test]
fn test_gxf_metadata_expiration() {
    let mut meta = GxfMetadata::new(64).unwrap();

    // Set expiration in the future
    let future_time = current_unix_seconds() + 3600;
    meta.expires_at = Some(future_time);
    assert!(!meta.is_expired());
    assert!(meta.validate().is_ok());

    // Set expiration in the past
    let past_time = current_unix_seconds() - 3600;
    meta.expires_at = Some(past_time);
    assert!(meta.is_expired());
    assert!(meta.validate().is_err());
}

#[test]
fn test_gxf_envelope_creation() {
    let job_id = JobId([0u8; 16]);
    let job = GxfJob::new(job_id, PrecisionLevel::BF16, 1024);
    let envelope = GxfEnvelope::from_job(job, 64).unwrap();

    assert_eq!(envelope.meta.schema_version, GXF_VERSION);
    assert!(!envelope.payload.is_empty());
}

#[test]
fn test_gxf_envelope_validation() {
    let job_id = JobId([0u8; 16]);
    let job = GxfJob::new(job_id, PrecisionLevel::BF16, 1024);
    let envelope = GxfEnvelope::from_job(job, 64).unwrap();
    assert!(envelope.validate().is_ok());

    // Invalid: empty payload
    let mut invalid_envelope = envelope.clone();
    invalid_envelope.payload = Vec::new();
    assert!(invalid_envelope.validate().is_err());
}

#[test]
fn test_gxf_envelope_serialization() {
    let job_id = JobId([0u8; 16]);
    let job = GxfJob::new(job_id, PrecisionLevel::BF16, 1024);
    let envelope = GxfEnvelope::from_job(job, 64).unwrap();

    // Serialize
    let json_bytes = envelope.to_json().unwrap();
    assert!(!json_bytes.is_empty());

    // Deserialize
    let deserialized = GxfEnvelope::from_json(&json_bytes).unwrap();
    assert_eq!(deserialized.meta.schema_version, envelope.meta.schema_version);
    assert_eq!(deserialized.payload, envelope.payload);
}

#[test]
fn test_gxf_envelope_job_roundtrip() {
    let job_id = JobId([1u8; 16]);
    let mut job = GxfJob::new(job_id, PrecisionLevel::FP8, 2048);
    job.set_parameter("key".to_string(), "value".to_string());

    let envelope = GxfEnvelope::from_job(job.clone(), 128).unwrap();
    let deserialized_job = envelope.deserialize_job().unwrap();

    assert_eq!(deserialized_job.job_id, job.job_id);
    assert_eq!(deserialized_job.precision, job.precision);
    assert_eq!(deserialized_job.kv_cache_seq_len, job.kv_cache_seq_len);
    assert_eq!(deserialized_job.parameters, job.parameters);
}

#[test]
fn test_parameter_lookup_and_replace() {
    let mut job = GxfJob::new(JobId([2u8; 16]), PrecisionLevel::INT8, 16);
    assert!(job.get_parameter(&"region".to_string()).is_none());
    job.set_parameter("region".to_string(), "US".to_string());
    assert_eq!(job.get_parameter(&"region".to_string()), Some(&"US".to_string()));
    job.set_parameter("region".to_string(), "EU".to_string());
    assert_eq!(job.get_parameter(&"region".to_string()), Some(&"EU".to_string()));
    assert_eq!(job.parameters.len(), 1);
}

#[test]
fn precision_tags_read_in_any_ascii_case() {
    assert_eq!(parse_precision_tag("BF16"), Ok(PrecisionLevel::BF16));
    assert_eq!(parse_precision_tag("bf16"), Ok(PrecisionLevel::BF16));
    assert_eq!(parse_precision_tag("Fp8"), Ok(PrecisionLevel::FP8));
    assert_eq!(parse_precision_tag("e5m2"), Ok(PrecisionLevel::E5M2));
    assert_eq!(parse_precision_tag("int8"), Ok(PrecisionLevel::INT8));
    assert!(parse_precision_tag("fp16").is_err());
    assert!(parse_precision_tag("").is_err());
    assert!(parse_precision_tag("BF160").is_err());
    assert!(parse_precision_tag("h\u{e9}llo").is_err());
}
