//! Lattice signatures.
//!
//! The primitives are computed by an outside collaborator with stable
//! byte-level contracts: keys and signatures are byte strings of fixed
//! sizes, and verification is a function of the message, signature and key
//! bytes alone.

use vstd::prelude::*;

verus! {

/// The size of a public key in bytes.
pub const DILITHIUM3_PUBLIC_KEY_LEN: usize = 1952;

/// The size of a secret key in bytes.
pub const DILITHIUM3_SECRET_KEY_LEN: usize = 4032;

/// The size of a detached signature in bytes.
pub const DILITHIUM3_SIGNATURE_LEN: usize = 3309;

/// Errors of signing and verification.
#[derive(Debug, Clone, Copy, PartialEq, Eq, Structural)]
pub enum SignatureError {
    /// Key generation failed.
    KeyGenerationFailed,
    /// Signing failed.
    SigningFailed,
    /// The signature does not verify.
    VerificationFailed,
    /// A key had the wrong size.
    InvalidKeySize { expected: usize, actual: usize },
    /// A signature had the wrong size.
    InvalidSignatureSize { expected: usize, actual: usize },
}

/// A public key: its bytes.
#[derive(Debug, Clone, PartialEq, Eq)]
pub struct PublicKey {
    /// The key bytes.
    pub bytes: Vec<u8>,
}

/// A secret key: its bytes.
#[derive(Debug, Clone, PartialEq, Eq)]
pub struct SecretKey {
    /// The key bytes.
    pub bytes: Vec<u8>,
}

/// A key pair.
#[derive(Debug, Clone, PartialEq, Eq)]
pub struct KeyPair {
    /// The public key.
    pub public: PublicKey,
    /// The secret key.
    pub secret: SecretKey,
}

/// A detached signature: its bytes.
#[derive(Debug, Clone, PartialEq, Eq)]
pub struct Signature {
    /// The signature bytes.
    pub bytes: Vec<u8>,
}

/// Whether verification accepts the signature bytes on the message bytes
/// under the public key bytes. The outcome depends on those bytes alone.
pub uninterp spec fn dilithium3_verifies(
    message: Seq<u8>,
    signature: Seq<u8>,
    public_key: Seq<u8>,
) -> bool;

/// Relies on pqcrypto_dilithium::dilithium3::public_key_bytes: the public
/// key size of this parameter set.
#[verifier::external_body]
fn public_key_len() -> (r: usize)
    ensures
        r == DILITHIUM3_PUBLIC_KEY_LEN,
{
    pqcrypto_dilithium::dilithium3::public_key_bytes()
}

/// Relies on pqcrypto_dilithium::dilithium3::secret_key_bytes: the secret
/// key size of this parameter set.
#[verifier::external_body]
fn secret_key_len() -> (r: usize)
    ensures
        r == DILITHIUM3_SECRET_KEY_LEN,
{
    pqcrypto_dilithium::dilithium3::secret_key_bytes()
}

/// Relies on pqcrypto_dilithium::dilithium3::signature_bytes: the detached
/// signature size of this parameter set.
#[verifier::external_body]
fn signature_len() -> (r: usize)
    ensures
        r == DILITHIUM3_SIGNATURE_LEN,
{
    pqcrypto_dilithium::dilithium3::signature_bytes()
}

impl PublicKey {
    /// Accepts exactly the byte strings of the public key size.
    pub fn from_bytes(bytes: Vec<u8>) -> (r: Result<Self, SignatureError>)
        ensures
            bytes@.len() == DILITHIUM3_PUBLIC_KEY_LEN ==> (r matches Ok(k) && k.bytes@ == bytes@),
            bytes@.len() != DILITHIUM3_PUBLIC_KEY_LEN ==> r == Result::<Self, SignatureError>::Err(
                SignatureError::InvalidKeySize {
                    expected: DILITHIUM3_PUBLIC_KEY_LEN,
                    actual: bytes@.len() as usize,
                },
            ),
    {
        let expected = public_key_len();
        if bytes.len() != expected {
            return Err(SignatureError::InvalidKeySize { expected, actual: bytes.len() });
        }
        Ok(PublicKey { bytes })
    }

    /// The key bytes.
    pub fn as_bytes(&self) -> (r: &[u8])
        ensures
            r@ == self.bytes@,
    {
        self.bytes.as_slice()
    }
}

impl SecretKey {
    /// Accepts exactly the byte strings of the secret key size.
    pub fn from_bytes(bytes: Vec<u8>) -> (r: Result<Self, SignatureError>)
        ensures
            bytes@.len() == DILITHIUM3_SECRET_KEY_LEN ==> (r matches Ok(k) && k.bytes@ == bytes@),
            bytes@.len() != DILITHIUM3_SECRET_KEY_LEN ==> r == Result::<Self, SignatureError>::Err(
                SignatureError::InvalidKeySize {
                    expected: DILITHIUM3_SECRET_KEY_LEN,
                    actual: bytes@.len() as usize,
                },
            ),
    {
        let expected = secret_key_len();
        if bytes.len() != expected {
            return Err(SignatureError::InvalidKeySize { expected, actual: bytes.len() });
        }
        Ok(SecretKey { bytes })
    }

    /// The key bytes.
    pub fn as_bytes(&self) -> (r: &[u8])
        ensures
            r@ == self.bytes@,
    {
        self.bytes.as_slice()
    }
}

impl KeyPair {
    /// Relies on pqcrypto_dilithium::dilithium3::keypair: a fresh random
    /// key pair of the fixed sizes. Nothing is assumed of the key bytes.
    #[verifier::external_body]
    pub fn generate() -> (r: Self)
        ensures
            r.public.bytes@.len() == DILITHIUM3_PUBLIC_KEY_LEN,
            r.secret.bytes@.len() == DILITHIUM3_SECRET_KEY_LEN,
    {
        let (pk, sk) = pqcrypto_dilithium::dilithium3::keypair();
        KeyPair {
            public: PublicKey {
                bytes: pqcrypto_traits::sign::PublicKey::as_bytes(&pk).to_vec(),
            },
            secret: SecretKey {
                bytes: pqcrypto_traits::sign::SecretKey::as_bytes(&sk).to_vec(),
            },
        }
    }
}

impl Signature {
    /// Accepts exactly the byte strings of the signature size.
    pub fn from_bytes(bytes: Vec<u8>) -> (r: Result<Self, SignatureError>)
        ensures
            bytes@.len() == DILITHIUM3_SIGNATURE_LEN ==> (r matches Ok(k) && k.bytes@ == bytes@),
            bytes@.len() != DILITHIUM3_SIGNATURE_LEN ==> r == Result::<Self, SignatureError>::Err(
                SignatureError::InvalidSignatureSize {
                    expected: DILITHIUM3_SIGNATURE_LEN,
                    actual: bytes@.len() as usize,
                },
            ),
    {
        let expected = signature_len();
        if bytes.len() != expected {
            return Err(SignatureError::InvalidSignatureSize { expected, actual: bytes.len() });
        }
        Ok(Signature { bytes })
    }

    /// The signature bytes.
    pub fn as_bytes(&self) -> (r: &[u8])
        ensures
            r@ == self.bytes@,
    {
        self.bytes.as_slice()
    }
}

/// Relies on pqcrypto_dilithium::dilithium3::detached_sign: a signature of
/// the fixed size on the message under the secret key. A key of the wrong
/// size is reported, never fed to the signer.
#[verifier::external_body]
pub fn sign_detached(message: &[u8], secret_key: &SecretKey) -> (r: Result<
    Signature,
    SignatureError,
>)
    ensures
        r matches Ok(sig) ==> sig.bytes@.len() == DILITHIUM3_SIGNATURE_LEN,
        r matches Err(e) ==> e == SignatureError::SigningFailed,
        secret_key.bytes@.len() == DILITHIUM3_SECRET_KEY_LEN ==> r is Ok,
{
    let sk: pqcrypto_dilithium::dilithium3::SecretKey = pqcrypto_traits::sign::SecretKey::from_bytes(
        &secret_key.bytes,
    ).map_err(|_| SignatureError::SigningFailed)?;
    let sig = pqcrypto_dilithium::dilithium3::detached_sign(message, &sk);
    Ok(Signature { bytes: pqcrypto_traits::sign::DetachedSignature::as_bytes(&sig).to_vec() })
}

/// Relies on pqcrypto_dilithium::dilithium3::verify_detached_signature:
/// accepts exactly when verification of these bytes accepts, which depends
/// on the bytes alone.
#[verifier::external_body]
pub fn verify_detached(message: &[u8], signature: &Signature, public_key: &PublicKey) -> (r: Result<
    (),
    SignatureError,
>)
    ensures
        r is Ok <==> dilithium3_verifies(message@, signature.bytes@, public_key.bytes@),
        r matches Err(e) ==> e == SignatureError::VerificationFailed,
{
    let pk: pqcrypto_dilithium::dilithium3::PublicKey = pqcrypto_traits::sign::PublicKey::from_bytes(
        &public_key.bytes,
    ).map_err(|_| SignatureError::VerificationFailed)?;
    let sig: pqcrypto_dilithium::dilithium3::DetachedSignature = pqcrypto_traits::sign::DetachedSignature::from_bytes(
        &signature.bytes,
    ).map_err(|_| SignatureError::VerificationFailed)?;
    pqcrypto_dilithium::dilithium3::verify_detached_signature(&sig, message, &pk).map_err(|_| {
        SignatureError::VerificationFailed
    })
}

} // verus!
