//! Tests of the client handle and the wallet record.

use gix_core::{DilithiumKeyPair, GixClient, Wallet};

#[test]
fn test_client_creation() {
    let _client = GixClient::new();
}

#[test]
fn wallet_wraps_a_keypair_at_the_current_version() {
    let keypair = DilithiumKeyPair::generate();
    let wallet = Wallet::new(keypair.clone());
    assert!(wallet.version_supported());
    assert_eq!(wallet.keypair.public.bytes, keypair.public.bytes);
    let stale = Wallet { version: 2, keypair };
    assert!(!stale.version_supported());
}
