//! The client handle of the brokerage network.
//!
//! The handle itself carries no state yet; submitting over the network is
//! the surrounding program's concern.

use vstd::prelude::*;

use crate::common::{GixError, JobId};
use crate::gxf::GxfEnvelope;

verus! {

/// A client of the brokerage network.
#[derive(Debug, Clone, PartialEq, Eq)]
pub struct GixClient {
}

impl GixClient {
    /// A fresh client handle.
    pub fn new() -> (r: Self)
        ensures
            r == (GixClient {  }),
    {
        GixClient {  }
    }

    /// Submits a job to the network. No transport is wired up yet, so
    /// every submission is reported as failed.
    pub fn submit_job(&self, _envelope: GxfEnvelope) -> (r: Result<JobId, GixError>)
        ensures
            r matches Err(e) && e is InternalError,
    {
        Err(GixError::InternalError("Not yet implemented".to_owned()))
    }
}

} // verus!
