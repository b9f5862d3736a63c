//! Lattice key encapsulation.
//!
//! The primitives are computed by an outside collaborator with stable
//! byte-level contracts: keys, ciphertexts and shared secrets are byte
//! strings of fixed sizes, and decapsulation is a function of the key and
//! ciphertext bytes alone.

use vstd::prelude::*;

verus! {

/// The size of a public key in bytes.
pub const KYBER1024_PUBLIC_KEY_LEN: usize = 1568;

/// The size of a secret key in bytes.
pub const KYBER1024_SECRET_KEY_LEN: usize = 3168;

/// The size of a ciphertext in bytes.
pub const KYBER1024_CIPHERTEXT_LEN: usize = 1568;

/// The size of a shared secret in bytes.
pub const KYBER1024_SHARED_SECRET_LEN: usize = 32;

/// Errors of encapsulation and decapsulation.
#[derive(Debug, Clone, Copy, PartialEq, Eq, Structural)]
pub enum CryptoError {
    /// Key generation failed.
    KeyGenerationFailed,
    /// Encapsulation failed.
    EncapsulationFailed,
    /// Decapsulation failed.
    DecapsulationFailed,
    /// A value had the wrong size.
    InvalidKeySize { expected: usize, actual: usize },
}

/// A public key: its bytes.
#[derive(Debug, Clone, PartialEq, Eq)]
pub struct KyberPublicKey {
    /// The key bytes.
    pub bytes: Vec<u8>,
}

/// A secret key: its bytes.
#[derive(Debug, Clone, PartialEq, Eq)]
pub struct KyberSecretKey {
    /// The key bytes.
    pub bytes: Vec<u8>,
}

/// A key pair.
#[derive(Debug, Clone, PartialEq, Eq)]
pub struct KyberKeyPair {
    /// The public key.
    pub public: KyberPublicKey,
    /// The secret key.
    pub secret: KyberSecretKey,
}

/// A ciphertext: its bytes.
#[derive(Debug, Clone, PartialEq, Eq)]
pub struct KyberCiphertext {
    /// The ciphertext bytes.
    pub bytes: Vec<u8>,
}

/// A shared secret: its bytes.
#[derive(Debug, Clone, PartialEq, Eq)]
pub struct KyberSharedSecret {
    /// The secret bytes.
    pub bytes: Vec<u8>,
}

/// The shared secret decapsulation yields from the secret key bytes and
/// the ciphertext bytes, on which alone it depends.
pub uninterp spec fn kyber1024_decap_of(secret_key: Seq<u8>, ciphertext: Seq<u8>) -> Seq<u8>;

/// Relies on pqcrypto_kyber::kyber1024::public_key_bytes: the public key
/// size of this parameter set.
#[verifier::external_body]
fn public_key_len() -> (r: usize)
    ensures
        r == KYBER1024_PUBLIC_KEY_LEN,
{
    pqcrypto_kyber::kyber1024::public_key_bytes()
}

/// Relies on pqcrypto_kyber::kyber1024::secret_key_bytes: the secret key
/// size of this parameter set.
#[verifier::external_body]
fn secret_key_len() -> (r: usize)
    ensures
        r == KYBER1024_SECRET_KEY_LEN,
{
    pqcrypto_kyber::kyber1024::secret_key_bytes()
}

/// Relies on pqcrypto_kyber::kyber1024::ciphertext_bytes: the ciphertext
/// size of this parameter set.
#[verifier::external_body]
fn ciphertext_len() -> (r: usize)
    ensures
        r == KYBER1024_CIPHERTEXT_LEN,
{
    pqcrypto_kyber::kyber1024::ciphertext_bytes()
}

/// Relies on pqcrypto_kyber::kyber1024::shared_secret_bytes: the shared
/// secret size of this parameter set.
#[verifier::external_body]
fn shared_secret_len() -> (r: usize)
    ensures
        r == KYBER1024_SHARED_SECRET_LEN,
{
    pqcrypto_kyber::kyber1024::shared_secret_bytes()
}

impl KyberPublicKey {
    /// Accepts exactly the byte strings of the public key size.
    pub fn from_bytes(bytes: Vec<u8>) -> (r: Result<Self, CryptoError>)
        ensures
            bytes@.len() == KYBER1024_PUBLIC_KEY_LEN ==> (r matches Ok(k) && k.bytes@ == bytes@),
            bytes@.len() != KYBER1024_PUBLIC_KEY_LEN ==> r == Result::<Self, CryptoError>::Err(
                CryptoError::InvalidKeySize {
                    expected: KYBER1024_PUBLIC_KEY_LEN,
                    actual: bytes@.len() as usize,
                },
            ),
    {
        let expected = public_key_len();
        if bytes.len() != expected {
            return Err(CryptoError::InvalidKeySize { expected, actual: bytes.len() });
        }
        Ok(KyberPublicKey { bytes })
    }

    /// The key bytes.
    pub fn as_bytes(&self) -> (r: &[u8])
        ensures
            r@ == self.bytes@,
    {
        self.bytes.as_slice()
    }
}

impl KyberSecretKey {
    /// Accepts exactly the byte strings of the secret key size.
    pub fn from_bytes(bytes: Vec<u8>) -> (r: Result<Self, CryptoError>)
        ensures
            bytes@.len() == KYBER1024_SECRET_KEY_LEN ==> (r matches Ok(k) && k.bytes@ == bytes@),
            bytes@.len() != KYBER1024_SECRET_KEY_LEN ==> r == Result::<Self, CryptoError>::Err(
                CryptoError::InvalidKeySize {
                    expected: KYBER1024_SECRET_KEY_LEN,
                    actual: bytes@.len() as usize,
                },
            ),
    {
        let expected = secret_key_len();
        if bytes.len() != expected {
            return Err(CryptoError::InvalidKeySize { expected, actual: bytes.len() });
        }
        Ok(KyberSecretKey { bytes })
    }

    /// The key bytes.
    pub fn as_bytes(&self) -> (r: &[u8])
        ensures
            r@ == self.bytes@,
    {
        self.bytes.as_slice()
    }
}

impl KyberKeyPair {
    /// Relies on pqcrypto_kyber::kyber1024::keypair: a fresh random key
    /// pair of the fixed sizes. Nothing is assumed of the key bytes.
    #[verifier::external_body]
    pub fn generate() -> (r: Self)
        ensures
            r.public.bytes@.len() == KYBER1024_PUBLIC_KEY_LEN,
            r.secret.bytes@.len() == KYBER1024_SECRET_KEY_LEN,
    {
        let (pk, sk) = pqcrypto_kyber::kyber1024::keypair();
        KyberKeyPair {
            public: KyberPublicKey {
                bytes: pqcrypto_traits::kem::PublicKey::as_bytes(&pk).to_vec(),
            },
            secret: KyberSecretKey {
                bytes: pqcrypto_traits::kem::SecretKey::as_bytes(&sk).to_vec(),
            },
        }
    }
}

impl KyberCiphertext {
    /// Accepts exactly the byte strings of the ciphertext size.
    pub fn from_bytes(bytes: Vec<u8>) -> (r: Result<Self, CryptoError>)
        ensures
            bytes@.len() == KYBER1024_CIPHERTEXT_LEN ==> (r matches Ok(k) && k.bytes@ == bytes@),
            bytes@.len() != KYBER1024_CIPHERTEXT_LEN ==> r == Result::<Self, CryptoError>::Err(
                CryptoError::InvalidKeySize {
                    expected: KYBER1024_CIPHERTEXT_LEN,
                    actual: bytes@.len() as usize,
                },
            ),
    {
        let expected = ciphertext_len();
        if bytes.len() != expected {
            return Err(CryptoError::InvalidKeySize { expected, actual: bytes.len() });
        }
        Ok(KyberCiphertext { bytes })
    }

    /// The ciphertext bytes.
    pub fn as_bytes(&self) -> (r: &[u8])
        ensures
            r@ == self.bytes@,
    {
        self.bytes.as_slice()
    }
}

impl KyberSharedSecret {
    /// Accepts exactly the byte strings of the shared secret size.
    pub fn from_bytes(bytes: Vec<u8>) -> (r: Result<Self, CryptoError>)
        ensures
            bytes@.len() == KYBER1024_SHARED_SECRET_LEN ==> (r matches Ok(k) && k.bytes@ == bytes@),
            bytes@.len() != KYBER1024_SHARED_SECRET_LEN ==> r == Result::<Self, CryptoError>::Err(
                CryptoError::InvalidKeySize {
                    expected: KYBER1024_SHARED_SECRET_LEN,
                    actual: bytes@.len() as usize,
                },
            ),
    {
        let expected = shared_secret_len();
        if bytes.len() != expected {
            return Err(CryptoError::InvalidKeySize { expected, actual: bytes.len() });
        }
        Ok(KyberSharedSecret { bytes })
    }

    /// The secret bytes.
    pub fn as_bytes(&self) -> (r: &[u8])
        ensures
            r@ == self.bytes@,
    {
        self.bytes.as_slice()
    }
}

/// Relies on pqcrypto_kyber::kyber1024::encapsulate: a fresh ciphertext
/// and shared secret of the fixed sizes under the public key. The
/// operation draws randomness, so nothing is assumed of the bytes.
#[verifier::external_body]
pub fn encapsulate(public_key: &KyberPublicKey) -> (r: Result<
    (KyberCiphertext, KyberSharedSecret),
    CryptoError,
>)
    ensures
        r matches Ok(p) ==> p.0.bytes@.len() == KYBER1024_CIPHERTEXT_LEN && p.1.bytes@.len()
            == KYBER1024_SHARED_SECRET_LEN,
        r matches Err(e) ==> e == CryptoError::EncapsulationFailed,
        public_key.bytes@.len() == KYBER1024_PUBLIC_KEY_LEN ==> r is Ok,
{
    let pk: pqcrypto_kyber::kyber1024::PublicKey = pqcrypto_traits::kem::PublicKey::from_bytes(
        &public_key.bytes,
    ).map_err(|_| CryptoError::EncapsulationFailed)?;
    let (ss, ct) = pqcrypto_kyber::kyber1024::encapsulate(&pk);
    Ok(
        (
            KyberCiphertext { bytes: pqcrypto_traits::kem::Ciphertext::as_bytes(&ct).to_vec() },
            KyberSharedSecret {
                bytes: pqcrypto_traits::kem::SharedSecret::as_bytes(&ss).to_vec(),
            },
        ),
    )
}

/// Relies on pqcrypto_kyber::kyber1024::decapsulate: the shared secret of
/// the fixed size that the secret key and ciphertext bytes determine.
#[verifier::external_body]
pub fn decapsulate(secret_key: &KyberSecretKey, ciphertext: &KyberCiphertext) -> (r: Result<
    KyberSharedSecret,
    CryptoError,
>)
    ensures
        r matches Ok(ss) ==> ss.bytes@.len() == KYBER1024_SHARED_SECRET_LEN && ss.bytes@
            == kyber1024_decap_of(secret_key.bytes@, ciphertext.bytes@),
        r matches Err(e) ==> e == CryptoError::DecapsulationFailed,
        secret_key.bytes@.len() == KYBER1024_SECRET_KEY_LEN && ciphertext.bytes@.len()
            == KYBER1024_CIPHERTEXT_LEN ==> r is Ok,
{
    let sk: pqcrypto_kyber::kyber1024::SecretKey = pqcrypto_traits::kem::SecretKey::from_bytes(
        &secret_key.bytes,
    ).map_err(|_| CryptoError::DecapsulationFailed)?;
    let ct: pqcrypto_kyber::kyber1024::Ciphertext = pqcrypto_traits::kem::Ciphertext::from_bytes(
        &ciphertext.bytes,
    ).map_err(|_| CryptoError::DecapsulationFailed)?;
    let ss = pqcrypto_kyber::kyber1024::decapsulate(&ct, &sk);
    Ok(KyberSharedSecret { bytes: pqcrypto_traits::kem::SharedSecret::as_bytes(&ss).to_vec() })
}

} // verus!
