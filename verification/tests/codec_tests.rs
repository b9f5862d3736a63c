//! Tests of the wire codec: exact encodings, round trips, and rejection
//! of malformed input.

use gix_core::wire::parse_u32_str;
use gix_core::{GxfEnvelope, GxfError, GxfJob, GxfMetadata, JobId, PrecisionLevel};

fn small_meta() -> GxfMetadata {
    GxfMetadata {
        schema_version: 3,
        priority: 5,
        created_at: 100,
        expires_at: None,
        source_slp: None,
        target_lane: None,
        additional_fields: Vec::new(),
    }
}

#[test]
fn envelope_encodes_to_the_documented_text() {
    let envelope = GxfEnvelope::new(small_meta(), vec![1, 2]);
    let bytes = envelope.to_json().unwrap();
    let expected = "{\"meta\":{\"schema_version\":3,\"priority\":5,\"created_at\":100,\"additional_fields\":{}},\"payload\":[1,2]}";
    assert_eq!(String::from_utf8(bytes).unwrap(), expected);
}

#[test]
fn envelope_with_every_field_round_trips() {
    let mut meta = small_meta();
    meta.expires_at = Some(2000);
    meta.source_slp = Some("slp-us-east-1".to_string());
    meta.target_lane = Some("Flash".to_string());
    meta.additional_fields.push(("trace".to_string(), "abc".to_string()));
    meta.additional_fields.push(("hop".to_string(), "2".to_string()));
    let envelope = GxfEnvelope::new(meta, vec![0, 255, 17]);
    let bytes = envelope.to_json().unwrap();
    let back = GxfEnvelope::from_json(&bytes).unwrap();
    assert_eq!(back, envelope);
}

#[test]
fn envelope_with_some_fields_round_trips() {
    let mut meta = small_meta();
    meta.target_lane = Some("Deep".to_string());
    let envelope = GxfEnvelope::new(meta, Vec::new());
    let bytes = envelope.to_json().unwrap();
    let back = GxfEnvelope::from_json(&bytes).unwrap();
    assert_eq!(back, envelope);
}

#[test]
fn job_payload_round_trips_with_parameters() {
    let mut job = GxfJob::new(JobId([9u8; 16]), PrecisionLevel::E5M2, 77);
    job.set_parameter("region".to_string(), "US".to_string());
    job.set_parameter("batch_size".to_string(), "8".to_string());
    let envelope = GxfEnvelope::from_job(job.clone(), 42).unwrap();
    let back = envelope.deserialize_job().unwrap();
    assert_eq!(back, job);
}

#[test]
fn escaped_strings_round_trip() {
    let mut meta = small_meta();
    meta.source_slp = Some("line\nbreak \"q\" back\\slash".to_string());
    let envelope = GxfEnvelope::new(meta, Vec::new());
    let bytes = envelope.to_json().unwrap();
    let back = GxfEnvelope::from_json(&bytes).unwrap();
    assert_eq!(back, envelope);

    let mut job = GxfJob::new(JobId([0u8; 16]), PrecisionLevel::BF16, 1);
    job.set_parameter("quote".to_string(), "a\"b\\c\u{7f}\td".to_string());
    let env2 = GxfEnvelope::from_job(job.clone(), 1).unwrap();
    assert_eq!(env2.deserialize_job().unwrap(), job);
}

#[test]
fn escapes_spell_the_documented_form() {
    let mut meta = small_meta();
    meta.source_slp = Some("a\"b\\c\n".to_string());
    let envelope = GxfEnvelope::new(meta, Vec::new());
    let text = String::from_utf8(envelope.to_json().unwrap()).unwrap();
    assert!(text.contains("\"source_slp\":\"a\\u0022b\\u005cc\\u000a\""), "got {}", text);
}

#[test]
fn strings_beyond_ascii_are_refused() {
    let mut meta = small_meta();
    meta.source_slp = Some("h\u{e9}llo".to_string());
    let envelope = GxfEnvelope::new(meta, Vec::new());
    assert_eq!(envelope.to_json(), Err(GxfError::Serialization));
    let mut job = GxfJob::new(JobId([0u8; 16]), PrecisionLevel::BF16, 1);
    job.set_parameter("greeting".to_string(), "h\u{e9}llo".to_string());
    assert_eq!(GxfEnvelope::from_job(job, 1), Err(GxfError::Serialization));
}

#[test]
fn noncanonical_escapes_do_not_parse() {
    // an escape for a plain character is refused
    let plain_escape = "{\"meta\":{\"schema_version\":3,\"priority\":5,\"created_at\":100,\"source_slp\":\"\\u0041\",\"additional_fields\":{}},\"payload\":[]}";
    assert_eq!(GxfEnvelope::from_json(plain_escape.as_bytes()), Err(GxfError::Deserialization));
    // uppercase hex digits are refused
    let upper_hex = "{\"meta\":{\"schema_version\":3,\"priority\":5,\"created_at\":100,\"source_slp\":\"\\u000A\",\"additional_fields\":{}},\"payload\":[]}";
    assert_eq!(GxfEnvelope::from_json(upper_hex.as_bytes()), Err(GxfError::Deserialization));
    // a canonical escape parses
    let canonical = "{\"meta\":{\"schema_version\":3,\"priority\":5,\"created_at\":100,\"source_slp\":\"\\u000a\",\"additional_fields\":{}},\"payload\":[]}";
    let env = GxfEnvelope::from_json(canonical.as_bytes()).unwrap();
    assert_eq!(env.meta.source_slp, Some("\n".to_string()));
}

#[test]
fn garbage_does_not_parse() {
    assert_eq!(GxfEnvelope::from_json(b"nonsense"), Err(GxfError::Deserialization));
    assert_eq!(GxfEnvelope::from_json(b""), Err(GxfError::Deserialization));
    assert_eq!(
        GxfEnvelope::from_json(b"{\"meta\":{\"schema_version\":03},\"payload\":[]}"),
        Err(GxfError::Deserialization)
    );
}

#[test]
fn trailing_bytes_do_not_parse() {
    let envelope = GxfEnvelope::new(small_meta(), vec![1]);
    let mut bytes = envelope.to_json().unwrap();
    bytes.push(b' ');
    assert_eq!(GxfEnvelope::from_json(&bytes), Err(GxfError::Deserialization));
}

#[test]
fn validation_reads_the_payload() {
    let job = GxfJob::new(JobId([0u8; 16]), PrecisionLevel::INT8, 3);
    let good = GxfEnvelope::from_job(job, 9).unwrap();
    assert!(good.validate().is_ok());

    let mut bad = good.clone();
    bad.payload[0] = b'x';
    assert_eq!(bad.validate(), Err(GxfError::InvalidPayload));

    let mut empty = good.clone();
    empty.payload = Vec::new();
    assert_eq!(empty.validate(), Err(GxfError::InvalidPayload));
}

#[test]
fn zero_sequence_length_fails_validation_after_transport() {
    // a zero sequence length cannot be built through the constructor path,
    // but can arrive over the wire
    let mut job = GxfJob::new(JobId([0u8; 16]), PrecisionLevel::INT8, 1);
    job.kv_cache_seq_len = 0;
    let meta = small_meta();
    let mut envelope = GxfEnvelope::new(meta, Vec::new());
    envelope.payload = {
        let valid = GxfEnvelope::from_job(GxfJob::new(JobId([0u8; 16]), PrecisionLevel::INT8, 1), 5)
            .unwrap();
        let mut bytes = valid.payload.clone();
        // rewrite the sequence length digit from one to zero
        let text = String::from_utf8(bytes.clone()).unwrap();
        let patched = text.replace("\"kv_cache_seq_len\":1,", "\"kv_cache_seq_len\":0,");
        bytes = patched.into_bytes();
        bytes
    };
    assert_eq!(envelope.validate(), Err(GxfError::InvalidSequenceLength(0)));
}

#[test]
fn number_strings_parse_like_the_standard_library() {
    assert_eq!(parse_u32_str("42"), Some(42));
    assert_eq!(parse_u32_str("+42"), Some(42));
    assert_eq!(parse_u32_str("043"), Some(43));
    assert_eq!(parse_u32_str("0"), Some(0));
    assert_eq!(parse_u32_str("4294967295"), Some(u32::MAX));
    assert_eq!(parse_u32_str("4294967296"), None);
    assert_eq!(parse_u32_str(""), None);
    assert_eq!(parse_u32_str("+"), None);
    assert_eq!(parse_u32_str("-1"), None);
    assert_eq!(parse_u32_str("4 2"), None);
    assert_eq!(parse_u32_str("abc"), None);
    // agree with the standard library on a few samples
    for s in ["42", "+42", "043", "", "+", "-1", "99999999999", "héllo"] {
        assert_eq!(parse_u32_str(s), s.parse::<u32>().ok(), "on {:?}", s);
    }
}

#[test]
fn validation_is_preserved_across_the_wire() {
    // a valid envelope stays valid after a round trip
    let job = GxfJob::new(JobId([4u8; 16]), PrecisionLevel::FP8, 9);
    let valid = GxfEnvelope::from_job(job, 20).unwrap();
    let back = GxfEnvelope::from_json(&valid.to_json().unwrap()).unwrap();
    assert_eq!(back.validate().is_ok(), valid.validate().is_ok());

    // an invalid envelope stays invalid in the same way
    let mut stale = valid.clone();
    stale.meta.created_at = 1;
    stale.meta.expires_at = Some(2);
    let back = GxfEnvelope::from_json(&stale.to_json().unwrap()).unwrap();
    assert_eq!(back.validate(), stale.validate());
}
