//! The wallet record: a versioned signature key pair.
//!
//! Storing the record with owner-only permissions and reading it back is
//! the surrounding program's concern; the library defines the record and
//! the version it speaks.

use vstd::prelude::*;

use crate::dilithium::KeyPair;

verus! {

/// The wallet record version this library speaks.
pub const WALLET_VERSION: u32 = 1;

/// A stored wallet: the record version and the key pair.
#[derive(Debug, Clone, PartialEq, Eq)]
pub struct Wallet {
    /// Record version; must equal [`WALLET_VERSION`].
    pub version: u32,
    /// The signature key pair.
    pub keypair: KeyPair,
}

impl Wallet {
    /// A wallet of the current record version around a key pair.
    pub fn new(keypair: KeyPair) -> (r: Self)
        ensures
            r.version == WALLET_VERSION,
            r.keypair == keypair,
    {
        Wallet { version: WALLET_VERSION, keypair }
    }

    /// Whether the record version is one this library speaks.
    pub fn version_supported(&self) -> (r: bool)
        ensures
            r == (self.version == WALLET_VERSION),
    {
        self.version == WALLET_VERSION
    }
}

} // verus!
