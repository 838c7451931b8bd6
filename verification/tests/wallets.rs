use std::sync::Arc;

use bitmask_core::wallet::{get_wallet, MemoryWallet, Network, WalletError, WalletRegistry};

const DESCRIPTOR: &str = "wpkh(tpubD6NzVbkrYhZ4Xferm7Pz4VnjdcDPFyjVu5K4iZXQ4pVN8Cks4pHVowTBXBKRhX64pkRyJZJN5xAKj4UDNnLPb5p2sSKXhewoYx5GbTdUFWq/0/*)";
const CHANGE: &str = "wpkh(tpubD6NzVbkrYhZ4Xferm7Pz4VnjdcDPFyjVu5K4iZXQ4pVN8Cks4pHVowTBXBKRhX64pkRyJZJN5xAKj4UDNnLPb5p2sSKXhewoYx5GbTdUFWq/1/*)";

fn network_of(wallet: &MemoryWallet) -> bitcoin::Network {
    wallet.try_lock().unwrap().network()
}

#[test]
fn wallet_is_made_once_and_handed_out_again() {
    let mut registry = WalletRegistry::new();
    assert_eq!(registry.len(), 0);
    let first = get_wallet(&mut registry, Network::Testnet, DESCRIPTOR, None).unwrap();
    assert_eq!(registry.len(), 1);
    assert_eq!(network_of(&first), bitcoin::Network::Testnet);
    let again = get_wallet(&mut registry, Network::Testnet, DESCRIPTOR, None).unwrap();
    assert!(Arc::ptr_eq(&first, &again));
    assert_eq!(registry.len(), 1);
    let found = registry.lookup(Network::Testnet, DESCRIPTOR, &None).unwrap();
    assert!(Arc::ptr_eq(&first, &found));
}

#[test]
fn wallets_are_kept_apart_by_network_and_change() {
    let mut registry = WalletRegistry::new();
    let plain = get_wallet(&mut registry, Network::Testnet, DESCRIPTOR, None).unwrap();
    let with_change =
        get_wallet(&mut registry, Network::Testnet, DESCRIPTOR, Some(CHANGE.to_string())).unwrap();
    let regtest = get_wallet(&mut registry, Network::Regtest, DESCRIPTOR, None).unwrap();
    let signet = get_wallet(&mut registry, Network::Signet, DESCRIPTOR, None).unwrap();
    assert_eq!(registry.len(), 4);
    assert!(!Arc::ptr_eq(&plain, &with_change));
    assert!(!Arc::ptr_eq(&plain, &regtest));
    assert!(!Arc::ptr_eq(&regtest, &signet));
    assert_eq!(network_of(&regtest), bitcoin::Network::Regtest);
    assert_eq!(network_of(&signet), bitcoin::Network::Signet);
    assert_eq!(network_of(&with_change), bitcoin::Network::Testnet);

    let again =
        get_wallet(&mut registry, Network::Testnet, DESCRIPTOR, Some(CHANGE.to_string())).unwrap();
    assert!(Arc::ptr_eq(&with_change, &again));
    assert!(registry.lookup(Network::Bitcoin, DESCRIPTOR, &None).is_none());
    assert!(registry.lookup(Network::Testnet, CHANGE, &None).is_none());
    assert!(registry
        .lookup(Network::Testnet, DESCRIPTOR, &Some(DESCRIPTOR.to_string()))
        .is_none());
    assert_eq!(registry.len(), 4);
}

#[test]
fn failure_leaves_the_registry_as_it_was() {
    let mut registry = WalletRegistry::new();
    let r = get_wallet(&mut registry, Network::Testnet, "no descriptor at all", None);
    let e = r.err().unwrap();
    assert!(!e.message.is_empty());
    assert_eq!(registry.len(), 0);
    // A key of the test networks is no key of the main network.
    assert!(get_wallet(&mut registry, Network::Bitcoin, DESCRIPTOR, None).is_err());
    assert!(get_wallet(
        &mut registry,
        Network::Testnet,
        DESCRIPTOR,
        Some("broken".to_string())
    )
    .is_err());
    assert_eq!(registry.len(), 0);
    assert!(registry.lookup(Network::Testnet, DESCRIPTOR, &None).is_none());
    assert!(get_wallet(&mut registry, Network::Testnet, DESCRIPTOR, None).is_ok());
    assert_eq!(registry.len(), 1);
}

#[test]
fn register_takes_either_outcome() {
    let mut scratch = WalletRegistry::new();
    let made = get_wallet(&mut scratch, Network::Testnet, DESCRIPTOR, None).unwrap();
    let other = get_wallet(&mut scratch, Network::Regtest, DESCRIPTOR, None).unwrap();

    let mut registry = WalletRegistry::new();
    let failure = WalletError { message: "refused".to_string() };
    let r = registry.register(
        Network::Testnet,
        DESCRIPTOR.to_string(),
        None,
        Err(failure.clone()),
    );
    assert_eq!(r.err(), Some(failure.clone()));
    assert_eq!(registry.len(), 0);

    let r = registry
        .register(Network::Testnet, DESCRIPTOR.to_string(), None, Ok(made.clone()))
        .unwrap();
    assert!(Arc::ptr_eq(&r, &made));
    assert_eq!(registry.len(), 1);

    // The key is taken: what was made for it a second time is set aside.
    let r = registry
        .register(Network::Testnet, DESCRIPTOR.to_string(), None, Ok(other.clone()))
        .unwrap();
    assert!(Arc::ptr_eq(&r, &made));
    let r = registry
        .register(Network::Testnet, DESCRIPTOR.to_string(), None, Err(failure))
        .unwrap();
    assert!(Arc::ptr_eq(&r, &made));
    assert_eq!(registry.len(), 1);
}
