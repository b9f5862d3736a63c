//! Cryptographic hashing.
//!
//! The digests are computed by an outside collaborator; the library names
//! their results, which depend on the inputs alone, so that contracts can
//! state that equal inputs give equal digests.

use vstd::prelude::*;

verus! {

/// The 32-byte digest of the input bytes.
pub uninterp spec fn blake3_of(input: Seq<u8>) -> Seq<u8>;

/// The 32-byte keyed digest of the input bytes under a 32-byte key.
pub uninterp spec fn blake3_keyed_of(key: Seq<u8>, input: Seq<u8>) -> Seq<u8>;

/// The 32-byte key derived from key material under a context string.
pub uninterp spec fn blake3_derived_of(context: Seq<char>, input: Seq<u8>) -> Seq<u8>;

/// Relies on blake3::hash: a 32-byte digest that depends on the input
/// bytes alone.
#[verifier::external_body]
pub fn hash(input: &[u8]) -> (r: [u8; 32])
    ensures
        r@ == blake3_of(input@),
{
    *blake3::hash(input).as_bytes()
}

/// Relies on blake3::Hasher::new_keyed: a 32-byte keyed digest that
/// depends on the key and the input bytes alone.
#[verifier::external_body]
pub fn hash_keyed(key: &[u8; 32], input: &[u8]) -> (r: [u8; 32])
    ensures
        r@ == blake3_keyed_of(key@, input@),
{
    let mut hasher = blake3::Hasher::new_keyed(key);
    hasher.update(input);
    *hasher.finalize().as_bytes()
}

/// Relies on blake3::Hasher::new_derive_key: a 32-byte derived key that
/// depends on the context string and the key material alone.
#[verifier::external_body]
pub fn derive_key(context: &str, input: &[u8]) -> (r: [u8; 32])
    ensures
        r@ == blake3_derived_of(context@, input@),
{
    let mut hasher = blake3::Hasher::new_derive_key(context);
    hasher.update(input);
    *hasher.finalize().as_bytes()
}

} // verus!
