//! Tests of the cryptographic collaborators: hashing, signatures, key
//! encapsulation, and the delay function.

use gix_core::dilithium;
use gix_core::hash::{derive_key, hash, hash_keyed};
use gix_core::hash_blake3;
use gix_core::kyber;
use gix_core::{
    kyber_decapsulate, kyber_encapsulate, sign_detached, vdf_evaluate, vdf_prove, vdf_verify,
    verify_detached, DilithiumKeyPair, KyberKeyPair,
};

#[test]
fn test_hash() {
    let input = b"test input";
    let hash1 = hash(input);
    let hash2 = hash(input);
    // Same input should produce same hash
    assert_eq!(hash1, hash2);
    // Hash should be 32 bytes
    assert_eq!(hash1.len(), 32);
}

#[test]
fn test_hash_known_digest() {
    // the digest of the empty input, as the collaborator documents it
    let digest = hash(b"");
    let expected = hex::decode("af1349b9f5f9a1a6a0404dea36dcc9499bcb25c9adc112b7cc9a93cae41f3262")
        .unwrap();
    assert_eq!(digest.to_vec(), expected);
}

#[test]
fn test_hash_keyed() {
    let key = [0u8; 32];
    let input = b"test input";
    let hash1 = hash_keyed(&key, input);
    let hash2 = hash_keyed(&key, input);
    // Same key and input should produce same hash
    assert_eq!(hash1, hash2);
    // A keyed digest differs from the plain digest
    assert_ne!(hash1, hash(input));
}

#[test]
fn test_derive_key() {
    let context = "test context";
    let input = b"test input";
    let key1 = derive_key(context, input);
    let key2 = derive_key(context, input);
    // Same context and input should produce same key
    assert_eq!(key1, key2);
    // Derived key should be 32 bytes
    assert_eq!(key1.len(), 32);
}

#[test]
fn test_derive_key_different_contexts() {
    let context1 = "context1";
    let context2 = "context2";
    let input = b"same input";
    let key1 = derive_key(context1, input);
    let key2 = derive_key(context2, input);
    // Different contexts should produce different keys
    assert_ne!(key1, key2);
}

#[test]
fn test_hash_blake3_export() {
    let input = b"test";
    let hash = hash_blake3(input);
    assert_eq!(hash.len(), 32);
}

#[test]
fn test_dilithium_keypair_generation() {
    let keypair = DilithiumKeyPair::generate();
    assert_eq!(keypair.public.bytes.len(), pqcrypto_dilithium::dilithium3::public_key_bytes());
    assert_eq!(keypair.secret.bytes.len(), pqcrypto_dilithium::dilithium3::secret_key_bytes());
}

#[test]
fn test_dilithium_sign_and_verify() {
    let keypair = DilithiumKeyPair::generate();
    let message = b"Test message for signing";

    // Sign
    let signature = sign_detached(message, &keypair.secret).expect("Signing failed");
    assert_eq!(signature.bytes.len(), pqcrypto_dilithium::dilithium3::signature_bytes());

    // Verify
    verify_detached(message, &signature, &keypair.public).expect("Verification failed");
}

#[test]
fn test_dilithium_verify_wrong_message_fails() {
    let keypair = DilithiumKeyPair::generate();
    let message = b"Original message";
    let wrong_message = b"Tampered message";

    let signature = sign_detached(message, &keypair.secret).unwrap();

    // Verification with wrong message should fail
    assert!(verify_detached(wrong_message, &signature, &keypair.public).is_err());
}

#[test]
fn test_dilithium_verify_wrong_key_fails() {
    let keypair1 = DilithiumKeyPair::generate();
    let keypair2 = DilithiumKeyPair::generate();
    let message = b"Test message";

    let signature = sign_detached(message, &keypair1.secret).unwrap();

    // Verification with wrong public key should fail
    assert!(verify_detached(message, &signature, &keypair2.public).is_err());
}

#[test]
fn test_dilithium_integration() {
    let keypair = DilithiumKeyPair::generate();
    let message = b"Test message";
    let signature = sign_detached(message, &keypair.secret).expect("Signing failed");
    verify_detached(message, &signature, &keypair.public).expect("Verification failed");
}

#[test]
fn test_dilithium_from_bytes_rejects_wrong_sizes() {
    assert!(dilithium::PublicKey::from_bytes(vec![0u8; 3]).is_err());
    assert!(dilithium::SecretKey::from_bytes(vec![0u8; 3]).is_err());
    assert!(dilithium::Signature::from_bytes(vec![0u8; 3]).is_err());
    let keypair = DilithiumKeyPair::generate();
    assert!(dilithium::PublicKey::from_bytes(keypair.public.bytes.clone()).is_ok());
    assert!(dilithium::SecretKey::from_bytes(keypair.secret.bytes.clone()).is_ok());
}

#[test]
fn test_kyber_keypair_generation() {
    let keypair = KyberKeyPair::generate();
    assert_eq!(keypair.public.bytes.len(), pqcrypto_kyber::kyber1024::public_key_bytes());
    assert_eq!(keypair.secret.bytes.len(), pqcrypto_kyber::kyber1024::secret_key_bytes());
}

#[test]
fn test_kyber_encapsulate_decapsulate() {
    let keypair = KyberKeyPair::generate();

    // Encapsulate
    let (ciphertext, shared_secret1) = kyber_encapsulate(&keypair.public).expect(
        "Encapsulation failed",
    );
    assert_eq!(ciphertext.bytes.len(), pqcrypto_kyber::kyber1024::ciphertext_bytes());
    assert_eq!(shared_secret1.bytes.len(), pqcrypto_kyber::kyber1024::shared_secret_bytes());

    // Decapsulate
    let shared_secret2 = kyber_decapsulate(&keypair.secret, &ciphertext).expect(
        "Decapsulation failed",
    );
    assert_eq!(shared_secret2.bytes.len(), pqcrypto_kyber::kyber1024::shared_secret_bytes());

    // Shared secrets should match
    assert_eq!(shared_secret1.bytes, shared_secret2.bytes);
}

#[test]
fn test_kyber_different_keypairs_different_secrets() {
    let keypair1 = KyberKeyPair::generate();
    let keypair2 = KyberKeyPair::generate();

    let (ct1, ss1) = kyber_encapsulate(&keypair1.public).unwrap();
    let (ct2, ss2) = kyber_encapsulate(&keypair2.public).unwrap();

    // Different public keys should produce different ciphertexts and secrets
    assert_ne!(ct1.bytes, ct2.bytes);
    assert_ne!(ss1.bytes, ss2.bytes);
}

#[test]
fn test_kyber_wrong_key_different_secret() {
    let keypair1 = KyberKeyPair::generate();
    let keypair2 = KyberKeyPair::generate();

    let (ciphertext, shared_secret1) = kyber_encapsulate(&keypair1.public).unwrap();

    // Decapsulating with wrong key should give different secret
    let shared_secret2 = kyber_decapsulate(&keypair2.secret, &ciphertext).unwrap();
    assert_ne!(shared_secret1.bytes, shared_secret2.bytes);
}

#[test]
fn test_kyber_integration() {
    let keypair = KyberKeyPair::generate();
    let (ciphertext, shared_secret1) = kyber_encapsulate(&keypair.public).expect(
        "Encapsulation failed",
    );
    let shared_secret2 = kyber_decapsulate(&keypair.secret, &ciphertext).expect(
        "Decapsulation failed",
    );
    // Real Kyber: secrets should match
    assert_eq!(shared_secret1.bytes, shared_secret2.bytes);
}

#[test]
fn test_kyber_from_bytes_rejects_wrong_sizes() {
    assert!(kyber::KyberPublicKey::from_bytes(vec![0u8; 3]).is_err());
    assert!(kyber::KyberSecretKey::from_bytes(vec![0u8; 3]).is_err());
    assert!(kyber::KyberCiphertext::from_bytes(vec![0u8; 3]).is_err());
    assert!(kyber::KyberSharedSecret::from_bytes(vec![0u8; 32]).is_ok());
}

#[test]
fn test_vdf_integration() {
    let input = b"test input";
    let proof = vdf_prove(input, 1000).expect("VDF prove failed");
    assert!(vdf_verify(input, &proof));
}

#[test]
fn test_vdf_evaluate() {
    let input = b"test input";
    let iterations = 1000;

    let output = vdf_evaluate(input, iterations).expect("VDF evaluation failed");
    assert!(!output.is_empty());
}

#[test]
fn test_vdf_prove_and_verify() {
    let input = b"test input";
    let iterations = 1000;

    // Generate proof
    let proof = vdf_prove(input, iterations).expect("VDF proving failed");
    assert!(!proof.output.is_empty());
    assert!(!proof.proof.is_empty());
    assert_eq!(proof.iterations, iterations);

    // Verify proof
    assert!(vdf_verify(input, &proof), "VDF verification failed");
}

#[test]
fn test_vdf_verify_wrong_input_fails() {
    let input = b"test input";
    let wrong_input = b"wrong input";
    let iterations = 1000;

    let proof = vdf_prove(input, iterations).unwrap();

    // Verification with wrong input should fail
    assert!(!vdf_verify(wrong_input, &proof));
}

#[test]
fn test_vdf_deterministic() {
    let input = b"test input";
    let iterations = 1000;

    let output1 = vdf_evaluate(input, iterations).unwrap();
    let output2 = vdf_evaluate(input, iterations).unwrap();

    // Same input and iterations should produce same output
    assert_eq!(output1, output2);
}

#[test]
fn test_vdf_different_iterations() {
    let input = b"test input";

    let proof1 = vdf_prove(input, 1000).unwrap();
    let proof2 = vdf_prove(input, 2000).unwrap();

    // Different iterations should produce different outputs
    assert_ne!(proof1.output, proof2.output);
}
