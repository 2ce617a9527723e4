use ed25519_dalek::{PublicKey, SecretKey, Signer};
use my_dex::error::DexError;
use my_dex::order::{CancelOrder, Keypair};

fn dalek_keypair(seed: u8) -> ed25519_dalek::Keypair {
    let secret = SecretKey::from_bytes(&[seed; 32]).unwrap();
    let public = PublicKey::from(&secret);
    ed25519_dalek::Keypair { secret, public }
}

fn msg(e: DexError) -> String {
    match e {
        DexError::Other(m) => m,
    }
}

#[test]
fn cancel_message_joins_fields_with_bars() {
    let c = CancelOrder::new_at(7, "bob".to_string(), -5);
    assert_eq!(c.message_to_sign(), "7|bob|-5");
    let c = CancelOrder::new_at(12345, "alice".to_string(), 1_700_000_000);
    assert_eq!(c.message_to_sign(), "12345|alice|1700000000");
}

#[test]
fn public_key_is_the_crates_derived_key() {
    let kp = Keypair::from_secret([9; 32]);
    assert_eq!(kp.public_key(), dalek_keypair(9).public.to_bytes());
    assert_ne!(kp.public_key(), [9; 32]);
}

#[test]
fn unsigned_cancel_is_refused() {
    let c = CancelOrder::new(1, "bob".to_string());
    assert!(c.signature.is_none());
    assert_eq!(c.order_id, 1);
    let kp = Keypair::from_secret([3; 32]);
    assert_eq!(msg(c.verify(&kp.public_key()).unwrap_err()), "CancelOrder besitzt keine Signatur");
}

#[test]
fn signature_is_the_crates_signature_of_the_text() {
    let kp = Keypair::from_secret([9; 32]);
    let mut c = CancelOrder::new_at(42, "carol".to_string(), 1_650_000_000);
    c.sign(&kp).unwrap();
    let expected = dalek_keypair(9).sign(b"42|carol|1650000000").to_bytes();
    assert_eq!(c.signature, Some(expected));
}

#[test]
fn signed_cancel_verifies_under_its_key() {
    let kp = Keypair::from_secret([9; 32]);
    let mut c = CancelOrder::new_at(42, "carol".to_string(), 1_650_000_000);
    c.sign(&kp).unwrap();
    assert!(c.signature.is_some());
    assert!(c.verify(&kp.public_key()).is_ok());
}

#[test]
fn signed_cancel_fails_under_other_key_or_after_change() {
    let kp = Keypair::from_secret([9; 32]);
    let other = Keypair::from_secret([10; 32]);
    let mut c = CancelOrder::new_at(42, "carol".to_string(), 1_650_000_000);
    c.sign(&kp).unwrap();
    let e = msg(c.verify(&other.public_key()).unwrap_err());
    assert!(e.starts_with("CancelOrder-Signatur-Überprüfung fehlgeschlagen: "));
    c.order_id = 43;
    assert!(c.verify(&kp.public_key()).is_err());
    let mut forged = CancelOrder::new_at(42, "carol".to_string(), 1_650_000_000);
    forged.signature = Some([1; 64]);
    assert!(forged.verify(&kp.public_key()).is_err());
}
