//! The execution runtime: compliance policy, simulated execution, and
//! accounting.
//!
//! A job passes three checks in order — precision, shape, residency — and
//! the first failure is reported as a compliance violation and counted as
//! a rejection. An accepted job is executed in simulation: the runtime
//! reports a duration derived from the sequence length and a digest of the
//! job identifier; the caller that drives the runtime performs the actual
//! delay.

use vstd::prelude::*;

use crate::clock::current_unix_seconds;
use crate::codec::spec_env_validate;
use crate::common::JobId;
use crate::gxf::{
    spec_param_lookup, spec_precision_bump, spec_precision_count, sat_inc64, GxfEnvelope, GxfError,
    GxfJob, GxfJobView, PrecisionCounts, PrecisionLevel,
};
use crate::hash::{blake3_of, hash};
use crate::wire::{spec_parse_u32, parse_u32_str};

verus! {

/// The outcome of one execution.
#[derive(Debug, Clone, PartialEq, Eq)]
pub struct ExecutionResult {
    /// The executed job.
    pub job_id: JobId,
    /// How the execution ended.
    pub status: ExecutionStatus,
    /// The simulated duration in milliseconds.
    pub duration_ms: u64,
    /// The digest of the job identifier standing in for the output.
    pub output_hash: [u8; 32],
}

/// How an execution ended.
#[derive(Debug, Clone, PartialEq, Eq)]
pub enum ExecutionStatus {
    /// The job ran to completion.
    Completed,
    /// The job failed while running.
    Failed(String),
    /// The job was turned away by policy.
    Rejected(String),
}

/// Why a job was turned away.
#[derive(Debug, Clone, Copy, PartialEq, Eq, Structural)]
pub enum ComplianceError {
    /// The precision is not supported here.
    PrecisionViolation,
    /// The sequence length or the batch size is too large.
    ShapeViolation,
    /// The region or the residency of the job is not allowed here.
    ResidencyViolation,
}

/// An error of the execution path.
#[derive(Debug, Clone, PartialEq, Eq, Structural)]
pub enum RuntimeError {
    /// The envelope failed validation.
    Envelope(GxfError),
    /// The job was turned away by policy.
    Compliance(ComplianceError),
}

/// Bounds on job shapes.
#[derive(Debug, Clone, PartialEq, Eq)]
pub struct ShapeRequirements {
    /// Greatest accepted sequence length.
    pub max_sequence_length: u32,
    /// Greatest accepted batch size.
    pub max_batch_size: u32,
    /// Dimensions a job must name, if any.
    pub required_dimensions: Vec<u32>,
}

/// The shape verdict on a job: the sequence length must fit, and a batch
/// size that reads as a number must fit; an unreadable batch size is
/// ignored.
pub open spec fn spec_shape_verdict(s: ShapeRequirements, j: GxfJobView) -> Result<
    (),
    ComplianceError,
> {
    if j.kv_cache_seq_len > s.max_sequence_length {
        Err(ComplianceError::ShapeViolation)
    } else {
        match spec_param_lookup(j.parameters, "batch_size"@) {
            Some(v) => match spec_parse_u32(v) {
                Some(b) => if b > s.max_batch_size {
                    Err(ComplianceError::ShapeViolation)
                } else {
                    Ok(())
                },
                None => Ok(()),
            },
            None => Ok(()),
        }
    }
}

impl ShapeRequirements {
    /// The default bounds: sequences up to 8192, batches up to 32, no
    /// required dimensions.
    pub fn default() -> (r: Self)
        ensures
            r.max_sequence_length == 8192,
            r.max_batch_size == 32,
            r.required_dimensions@.len() == 0,
    {
        ShapeRequirements {
            max_sequence_length: 8192,
            max_batch_size: 32,
            required_dimensions: Vec::new(),
        }
    }

    /// The shape verdict on a job.
    pub fn validate(&self, job: &GxfJob) -> (r: Result<(), ComplianceError>)
        ensures
            r == spec_shape_verdict(*self, job@),
    {
        if job.kv_cache_seq_len > self.max_sequence_length {
            return Err(ComplianceError::ShapeViolation);
        }
        let key = "batch_size".to_owned();
        match job.get_parameter(&key) {
            Some(v) => {
                match parse_u32_str(v.as_str()) {
                    Some(b) => {
                        if b > self.max_batch_size {
                            Err(ComplianceError::ShapeViolation)
                        } else {
                            Ok(())
                        }
                    },
                    None => Ok(()),
                }
            },
            None => Ok(()),
        }
    }
}

/// Bounds on where a job may run.
#[derive(Debug, Clone, PartialEq, Eq)]
pub struct ResidencyRequirements {
    /// The regions jobs may name.
    pub allowed_regions: Vec<String>,
    /// A residency every job must name, if set.
    pub required_residency: Option<String>,
}

/// Whether some string of the list reads as `x`.
pub open spec fn spec_str_list_contains(l: Seq<String>, x: Seq<char>) -> bool {
    exists|t: int| 0 <= t < l.len() && #[trigger] l[t]@ == x
}

/// The residency verdict on a job: a named region must be allowed, and a
/// configured residency must be named and matched.
pub open spec fn spec_residency_verdict(rr: ResidencyRequirements, j: GxfJobView) -> Result<
    (),
    ComplianceError,
> {
    if spec_param_lookup(j.parameters, "region"@) matches Some(region)
        && !spec_str_list_contains(rr.allowed_regions@, region) {
        Err(ComplianceError::ResidencyViolation)
    } else {
        match rr.required_residency {
            Some(required) => match spec_param_lookup(j.parameters, "residency"@) {
                Some(named) => if named != required@ {
                    Err(ComplianceError::ResidencyViolation)
                } else {
                    Ok(())
                },
                None => Err(ComplianceError::ResidencyViolation),
            },
            None => Ok(()),
        }
    }
}

impl ResidencyRequirements {
    /// The default bounds: jobs may name the US and EU regions; no
    /// residency is required.
    pub fn default() -> (r: Self)
        ensures
            r.allowed_regions@.len() == 2,
            r.allowed_regions@[0]@ == "US"@,
            r.allowed_regions@[1]@ == "EU"@,
            r.required_residency is None,
    {
        let mut allowed: Vec<String> = Vec::new();
        allowed.push("US".to_owned());
        allowed.push("EU".to_owned());
        ResidencyRequirements { allowed_regions: allowed, required_residency: None }
    }

    /// The residency verdict on a job.
    pub fn validate(&self, job: &GxfJob) -> (r: Result<(), ComplianceError>)
        ensures
            r == spec_residency_verdict(*self, job@),
    {
        let region_key = "region".to_owned();
        if let Some(region) = job.get_parameter(&region_key) {
            let mut found = false;
            let n = self.allowed_regions.len();
            let mut t: usize = 0;
            while t < n
                invariant
                    n == self.allowed_regions@.len(),
                    0 <= t <= n,
                    found == exists|u: int|
                        0 <= u < t && #[trigger] self.allowed_regions@[u]@ == region@,
                decreases n - t,
            {
                if self.allowed_regions[t] == *region {
                    found = true;
                }
                t += 1;
            }
            proof {
                assert(found == spec_str_list_contains(self.allowed_regions@, region@));
            }
            if !found {
                return Err(ComplianceError::ResidencyViolation);
            }
        }
        match &self.required_residency {
            Some(required) => {
                let residency_key = "residency".to_owned();
                match job.get_parameter(&residency_key) {
                    Some(named) => {
                        if *named == *required {
                            Ok(())
                        } else {
                            Err(ComplianceError::ResidencyViolation)
                        }
                    },
                    None => Err(ComplianceError::ResidencyViolation),
                }
            },
            None => Ok(()),
        }
    }
}

/// The sum of the per-precision execution counts.
pub open spec fn spec_precision_sum(c: PrecisionCounts) -> int {
    c.bf16 + c.fp8 + c.e5m2 + c.int8
}

/// Coherent execution counters: until the execution counter saturates, it
/// equals the per-precision counts' sum, and completed and failed
/// executions together never outnumber it.
pub open spec fn spec_exec_stats_wf(s: ExecutionStats) -> bool {
    s.total_executed < u64::MAX ==> {
        &&& s.total_executed == spec_precision_sum(s.jobs_by_precision)
        &&& s.total_completed + s.total_failed <= s.total_executed
    }
}

/// Execution counters.
#[derive(Debug, Clone, Copy, PartialEq, Eq, Structural)]
pub struct ExecutionStats {
    /// Jobs whose execution began.
    pub total_executed: u64,
    /// Jobs that ran to completion.
    pub total_completed: u64,
    /// Jobs that failed while running.
    pub total_failed: u64,
    /// Jobs turned away by policy.
    pub total_rejected: u64,
    /// Executions begun, by precision.
    pub jobs_by_precision: PrecisionCounts,
}

/// The execution runtime: its policy and its counters.
#[derive(Debug, Clone, PartialEq, Eq)]
pub struct RuntimeState {
    /// The precision levels this runtime runs.
    pub supported_precisions: Vec<PrecisionLevel>,
    /// Bounds on job shapes.
    pub shape_requirements: ShapeRequirements,
    /// Bounds on where a job may run.
    pub residency_requirements: ResidencyRequirements,
    /// Execution counters.
    pub stats: ExecutionStats,
}

/// The precision verdict on a job: the precision must be one this runtime
/// runs. (Every precision value lies in the closed set.)
pub open spec fn spec_precision_verdict(rs: RuntimeState, j: GxfJobView) -> Result<
    (),
    ComplianceError,
> {
    if !rs.supported_precisions@.contains(j.precision) {
        Err(ComplianceError::PrecisionViolation)
    } else {
        Ok(())
    }
}

/// The compliance verdict on a job: precision first, then shape, then
/// residency; the first failure wins.
pub open spec fn spec_compliance_verdict(rs: RuntimeState, j: GxfJobView) -> Result<
    (),
    ComplianceError,
> {
    match spec_precision_verdict(rs, j) {
        Err(e) => Err(e),
        Ok(_) => match spec_shape_verdict(rs.shape_requirements, j) {
            Err(e) => Err(e),
            Ok(_) => spec_residency_verdict(rs.residency_requirements, j),
        },
    }
}

/// The simulated duration of a job in milliseconds: a millisecond per
/// thousand sequence elements, rounded up, plus ten.
pub open spec fn spec_duration_ms(kv: u32) -> u64 {
    ((kv + 999) / 1000 + 10) as u64
}

impl RuntimeState {
    /// A fresh runtime with the default policy — all four precisions, the
    /// default shape and residency bounds — and zeroed counters.
    pub fn new() -> (r: Self)
        ensures
            r.supported_precisions@ == seq![
                PrecisionLevel::BF16,
                PrecisionLevel::FP8,
                PrecisionLevel::E5M2,
                PrecisionLevel::INT8,
            ],
            r.shape_requirements.max_sequence_length == 8192,
            r.shape_requirements.max_batch_size == 32,
            r.residency_requirements.allowed_regions@.len() == 2,
            r.residency_requirements.allowed_regions@[0]@ == "US"@,
            r.residency_requirements.allowed_regions@[1]@ == "EU"@,
            r.residency_requirements.required_residency is None,
            r.stats == (ExecutionStats {
                total_executed: 0,
                total_completed: 0,
                total_failed: 0,
                total_rejected: 0,
                jobs_by_precision: PrecisionCounts { bf16: 0, fp8: 0, e5m2: 0, int8: 0 },
            }),
            spec_exec_stats_wf(r.stats),
    {
        let mut precisions: Vec<PrecisionLevel> = Vec::new();
        precisions.push(PrecisionLevel::BF16);
        precisions.push(PrecisionLevel::FP8);
        precisions.push(PrecisionLevel::E5M2);
        precisions.push(PrecisionLevel::INT8);
        proof {
            assert(precisions@ =~= seq![
                PrecisionLevel::BF16,
                PrecisionLevel::FP8,
                PrecisionLevel::E5M2,
                PrecisionLevel::INT8,
            ]);
        }
        RuntimeState {
            supported_precisions: precisions,
            shape_requirements: ShapeRequirements::default(),
            residency_requirements: ResidencyRequirements::default(),
            stats: ExecutionStats {
                total_executed: 0,
                total_completed: 0,
                total_failed: 0,
                total_rejected: 0,
                jobs_by_precision: PrecisionCounts::zero(),
            },
        }
    }

    /// The compliance verdict on a job under this runtime's policy.
    pub fn check_compliance(&self, job: &GxfJob) -> (r: Result<(), ComplianceError>)
        ensures
            r == spec_compliance_verdict(*self, job@),
    {
        let n = self.supported_precisions.len();
        let mut t: usize = 0;
        let mut found = false;
        while t < n
            invariant
                n == self.supported_precisions@.len(),
                0 <= t <= n,
                found == exists|u: int|
                    0 <= u < t && self.supported_precisions@[u] == job.precision,
            decreases n - t,
        {
            if self.supported_precisions[t] == job.precision {
                found = true;
            }
            t += 1;
        }
        proof {
            assert(found == self.supported_precisions@.contains(job@.precision));
        }
        if !found {
            return Err(ComplianceError::PrecisionViolation);
        }
        if !job.precision.is_valid() {
            return Err(ComplianceError::PrecisionViolation);
        }
        if let Err(e) = self.shape_requirements.validate(job) {
            return Err(e);
        }
        self.residency_requirements.validate(job)
    }

    /// Executes a job under policy. A job that fails compliance is counted
    /// as rejected and turned away before any execution counter moves. An
    /// accepted job is counted as executed and completed; the result holds
    /// the simulated duration and the digest of the job identifier. The
    /// caller that drives the runtime performs the simulated delay of
    /// `duration_ms` milliseconds.
    pub fn execute_job(&mut self, job: &GxfJob) -> (r: Result<ExecutionResult, ComplianceError>)
        ensures
            spec_exec_stats_wf(old(self).stats) ==> spec_exec_stats_wf(final(self).stats),
            match spec_compliance_verdict(*old(self), job@) {
                Err(e) => {
                    &&& r == Result::<ExecutionResult, ComplianceError>::Err(e)
                    &&& final(self).stats.total_rejected == sat_inc64(
                        old(self).stats.total_rejected,
                    )
                    &&& final(self).stats.total_executed == old(self).stats.total_executed
                    &&& final(self).stats.total_completed == old(self).stats.total_completed
                    &&& final(self).stats.total_failed == old(self).stats.total_failed
                    &&& final(self).stats.jobs_by_precision == old(self).stats.jobs_by_precision
                    &&& final(self).supported_precisions == old(self).supported_precisions
                    &&& final(self).shape_requirements == old(self).shape_requirements
                    &&& final(self).residency_requirements == old(self).residency_requirements
                },
                Ok(_) => {
                    &&& r matches Ok(res) && res.job_id == job.job_id && res.status
                        == ExecutionStatus::Completed && res.duration_ms == spec_duration_ms(
                        job.kv_cache_seq_len,
                    ) && res.output_hash@ == blake3_of(job.job_id.0@)
                    &&& final(self).stats.total_executed == sat_inc64(
                        old(self).stats.total_executed,
                    )
                    &&& final(self).stats.total_completed == sat_inc64(
                        old(self).stats.total_completed,
                    )
                    &&& final(self).stats.total_rejected == old(self).stats.total_rejected
                    &&& final(self).stats.total_failed == old(self).stats.total_failed
                    &&& final(self).stats.jobs_by_precision == spec_precision_bump(
                        old(self).stats.jobs_by_precision,
                        job.precision,
                    )
                    &&& final(self).supported_precisions == old(self).supported_precisions
                    &&& final(self).shape_requirements == old(self).shape_requirements
                    &&& final(self).residency_requirements == old(self).residency_requirements
                },
            },
    {
        if let Err(e) = self.check_compliance(job) {
            if self.stats.total_rejected < u64::MAX {
                self.stats.total_rejected = self.stats.total_rejected + 1;
            }
            return Err(e);
        }
        if self.stats.total_executed < u64::MAX {
            self.stats.total_executed = self.stats.total_executed + 1;
        }
        let mut counts = self.stats.jobs_by_precision;
        counts.bump(job.precision);
        self.stats.jobs_by_precision = counts;
        let duration_ms: u64 = (job.kv_cache_seq_len as u64 + 999) / 1000 + 10;
        let output_hash = hash(job.job_id.0.as_slice());
        if self.stats.total_completed < u64::MAX {
            self.stats.total_completed = self.stats.total_completed + 1;
        }
        proof {
            if spec_exec_stats_wf(old(self).stats) && self.stats.total_executed < u64::MAX {
                assert(spec_precision_count(old(self).stats.jobs_by_precision, job.precision)
                    <= spec_precision_sum(old(self).stats.jobs_by_precision));
            }
        }
        Ok(
            ExecutionResult {
                job_id: job.job_id,
                status: ExecutionStatus::Completed,
                duration_ms,
                output_hash,
            },
        )
    }

    /// A snapshot of the execution counters. Of a runtime with coherent
    /// counters the snapshot is coherent too.
    pub fn get_stats(&self) -> (r: ExecutionStats)
        ensures
            r == self.stats,
            spec_exec_stats_wf(self.stats) ==> spec_exec_stats_wf(r),
    {
        self.stats
    }
}

/// The outcome of one execution call at time `now`: a rejected envelope is
/// reported and changes nothing; otherwise the runtime executes the job
/// the payload spells.
pub open spec fn spec_execute_outcome(
    pre: RuntimeState,
    post: RuntimeState,
    env: crate::gxf::GxfEnvelopeView,
    now: u64,
    r: Result<ExecutionResult, RuntimeError>,
) -> bool {
    match spec_env_validate(env, now) {
        Err(e) => r == Result::<ExecutionResult, RuntimeError>::Err(RuntimeError::Envelope(e))
            && post == pre,
        Ok(_) => {
            let j = crate::codec::payload_job(env.payload);
            match spec_compliance_verdict(pre, j) {
                Err(e) => {
                    &&& r == Result::<ExecutionResult, RuntimeError>::Err(RuntimeError::Compliance(e))
                    &&& post.stats.total_rejected == sat_inc64(pre.stats.total_rejected)
                    &&& post.stats.total_executed == pre.stats.total_executed
                },
                Ok(_) => {
                    &&& r matches Ok(res) && res.job_id.0@ == j.job_id && res.status
                        == ExecutionStatus::Completed && res.duration_ms == spec_duration_ms(
                        j.kv_cache_seq_len,
                    ) && res.output_hash@ == blake3_of(j.job_id)
                    &&& post.stats.total_executed == sat_inc64(pre.stats.total_executed)
                    &&& post.stats.total_completed == sat_inc64(pre.stats.total_completed)
                    &&& post.stats.total_rejected == pre.stats.total_rejected
                },
            }
        },
    }
}

/// Executes the job of an envelope at time `now`: validates the envelope,
/// reads the job, and runs it under policy.
pub fn process_envelope_at(runtime: &mut RuntimeState, envelope: &GxfEnvelope, now: u64) -> (r:
    Result<ExecutionResult, RuntimeError>)
    ensures
        spec_execute_outcome(*old(runtime), *final(runtime), envelope@, now, r),
{
    if let Err(e) = envelope.validate_at(now) {
        return Err(RuntimeError::Envelope(e));
    }
    let job = match envelope.deserialize_job() {
        Ok(j) => j,
        Err(_) => {
            proof {
                assert(false);
            }
            return Err(RuntimeError::Envelope(GxfError::InvalidPayload));
        },
    };
    if let Err(e) = job.validate() {
        proof {
            assert(false);
        }
        return Err(RuntimeError::Envelope(e));
    }
    match runtime.execute_job(&job) {
        Ok(res) => Ok(res),
        Err(e) => Err(RuntimeError::Compliance(e)),
    }
}

/// Executes the job of an envelope against the system clock.
pub fn process_envelope(runtime: &mut RuntimeState, envelope: &GxfEnvelope) -> (r: Result<
    ExecutionResult,
    RuntimeError,
>)
    ensures
        exists|now: u64|
            #[trigger] spec_execute_outcome(*old(runtime), *final(runtime), envelope@, now, r),
{
    let now = current_unix_seconds();
    process_envelope_at(runtime, envelope, now)
}

} // verus!
