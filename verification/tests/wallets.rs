//! Tests of the wallet primitive: key generation, signing, verification.

use jab::wallet::Wallet;

#[test]
fn should_generate_valid_wallet_keys() {
    let wallet = Wallet::new();
    let signature = wallet.sign(&[0xab; 32]).unwrap();
    assert_eq!(
        Wallet::verify(&[0xab; 32], &signature, &wallet.public_key()).unwrap(),
        true
    );
    assert!(wallet.address().starts_with("jab"));
}

#[test]
fn should_fail_wallet_verify() {
    let wallet = Wallet::new();
    let signature = wallet.sign(&[0xab; 32]).unwrap();

    let other_wallet = Wallet::new();
    assert_eq!(
        Wallet::verify(&[0xab; 32], &signature, &other_wallet.public_key()).unwrap(),
        false
    );
}

#[test]
fn should_generate_wallet_from_keys() {
    let wallet = Wallet::new();
    let copy_wallet = Wallet::from_secret_bytes(wallet.secret_key().as_slice()).unwrap();
    assert_eq!(copy_wallet.public_key(), wallet.public_key());
}

#[test]
fn rebuilt_wallet_keeps_its_address() {
    let wallet = Wallet::new();
    let copy_wallet = Wallet::from_secret_bytes(wallet.secret_key().as_slice()).unwrap();
    assert_eq!(copy_wallet.address(), wallet.address());
}

#[test]
fn signature_does_not_cover_other_digests() {
    let wallet = Wallet::new();
    let signature = wallet.sign(&[0xab; 32]).unwrap();
    assert_eq!(
        Wallet::verify(&[0xcd; 32], &signature, &wallet.public_key()).unwrap(),
        false
    );
}

#[test]
fn verify_rejects_unparsable_inputs() {
    let wallet = Wallet::new();
    assert!(Wallet::verify(&[0xab; 32], "zz-not-a-signature", &wallet.public_key()).is_err());
    assert!(Wallet::verify(&[0xab; 32], "00", "zz-not-a-key").is_err());
    let signature = wallet.sign(&[0xab; 32]).unwrap();
    assert!(Wallet::verify(&[0xab; 31], &signature, &wallet.public_key()).is_err());
}

#[test]
fn sign_rejects_short_digests() {
    let wallet = Wallet::new();
    assert!(wallet.sign(&[0xab; 16]).is_err());
}

#[test]
fn address_is_the_hash_of_the_public_key() {
    let wallet = Wallet::new();
    let address = wallet.address();
    assert!(address.starts_with("jab"));
    assert_eq!(address.len(), 3 + 40);
    assert!(address[3..].chars().all(|c| c.is_ascii_hexdigit() && !c.is_ascii_uppercase()));
}
