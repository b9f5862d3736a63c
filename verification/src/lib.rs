//! Verified core of a distributed compute-job brokerage network.
//!
//! The library covers the job envelope format with its textual wire codec,
//! the priority router with per-lane capacity tracking, the provider
//! auction with pricing, route selection and durable statistics, and the
//! execution runtime with its compliance policy. Around them stand the
//! cryptographic collaborators — hashing, lattice signatures, key
//! encapsulation, the delay function — behind trusted contracts.

pub mod auction;
pub mod clock;
pub mod client;
pub mod codec;
pub mod common;
pub mod dilithium;
pub mod gxf;
pub mod hash;
pub mod kyber;
pub mod persist;
pub mod router;
pub mod runtime;
pub mod store;
pub mod vdf;
pub mod wallet;
pub mod wire;

pub use auction::{AuctionMatch, AuctionStats, ComputeProvider, Price, Route};
pub use client::GixClient;
pub use codec::validate_envelope;
pub use common::{GixError, JobId, LaneId, SlpId};
pub use dilithium::{
    sign_detached, verify_detached, KeyPair as DilithiumKeyPair, PublicKey as DilithiumPublicKey,
    SecretKey as DilithiumSecretKey, Signature as DilithiumSignature,
    SignatureError as DilithiumError,
};
pub use gxf::{
    parse_precision_tag, validate_job, GxfEnvelope, GxfError, GxfJob, GxfMetadata, JobPriority,
    PrecisionCounts, PrecisionLevel, GXF_VERSION,
};
pub use hash::hash as hash_blake3;
pub use kyber::{
    decapsulate as kyber_decapsulate, encapsulate as kyber_encapsulate,
    CryptoError as KyberError, KyberCiphertext, KyberKeyPair, KyberPublicKey, KyberSecretKey,
    KyberSharedSecret,
};
pub use router::{RouterState, RouterStats};
pub use runtime::{
    ComplianceError, ExecutionResult, ExecutionStats, ExecutionStatus, ResidencyRequirements,
    RuntimeState, ShapeRequirements,
};
pub use store::{open_db, AuctionEngine};
pub use vdf::{
    evaluate as vdf_evaluate, prove as vdf_prove, verify as vdf_verify, VdfError, VdfProof,
};
pub use wallet::Wallet;
