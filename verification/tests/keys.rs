use k256::pkcs8::EncodePublicKey;
use lib::crypto::{PrivateKey, PublicKey, Signature};
use lib::error::BtcError;
use lib::sha256;
use lib::u256::U256;
use lib::wallet::Recipient;
use std::path::PathBuf;

fn pem_of(key: &PublicKey) -> String {
    let inner = k256::PublicKey::from_sec1_bytes(&key.to_sec1()).unwrap();
    inner.to_public_key_pem(k256::pkcs8::LineEnding::LF).unwrap()
}

#[test]
fn a_fresh_key_has_a_public_key() {
    let key = PrivateKey::new_key();
    let public = key.public_key().expect("a fresh key is valid");
    assert!(public.tag == 2 || public.tag == 3);
    assert_eq!(key.public_key(), Some(public));
}

#[test]
fn every_fresh_key_is_valid() {
    for _ in 0..20 {
        let key = PrivateKey::new_key();
        assert!(!key.scalar.is_zero());
        let public = key.public_key().expect("a fresh key is valid");
        assert_eq!(public.to_sec1().len(), 33);
        let hash = sha256::Hash::hash_bytes(b"an output");
        let signature = Signature::sign_output(&hash, &key).expect("a valid key signs");
        assert!(signature.verify(&hash, &public));
    }
}

#[test]
fn fresh_keys_differ() {
    assert_ne!(PrivateKey::new_key(), PrivateKey::new_key());
}

#[test]
fn the_zero_scalar_is_no_key() {
    let key = PrivateKey { scalar: U256::zero() };
    assert_eq!(key.public_key(), None);
    assert_eq!(Signature::sign_output(&sha256::Hash::hash_bytes(b"x"), &key), None);
}

#[test]
fn the_scalar_one_has_the_generator_as_its_public_key() {
    let key = PrivateKey { scalar: U256::from_u64(1) };
    let public = key.public_key().unwrap();
    assert_eq!(public.tag, 2);
    assert_eq!(
        String::from_utf8(public.x.to_decimal()).unwrap(),
        "55066263022277343669578718895168534326250603453777594175500187360389116729240"
    );
}

#[test]
fn a_signature_verifies_under_its_key_only() {
    let key = PrivateKey::new_key();
    let other = PrivateKey::new_key();
    let hash = sha256::Hash::hash_bytes(b"an output");
    let signature = Signature::sign_output(&hash, &key).unwrap();
    assert!(signature.verify(&hash, &key.public_key().unwrap()));
    assert!(!signature.verify(&hash, &other.public_key().unwrap()));
    assert!(!signature.verify(&sha256::Hash::hash_bytes(b"another output"), &key.public_key().unwrap()));
}

#[test]
fn signing_is_deterministic() {
    let key = PrivateKey::new_key();
    let hash = sha256::Hash::hash_bytes(b"an output");
    assert_eq!(Signature::sign_output(&hash, &key), Signature::sign_output(&hash, &key));
}

#[test]
fn a_signature_of_zeros_is_not_accepted() {
    let key = PrivateKey::new_key().public_key().unwrap();
    let signature = Signature { r: U256::zero(), s: U256::zero() };
    assert!(!signature.verify(&sha256::Hash::hash_bytes(b"x"), &key));
}

#[test]
fn a_key_that_is_no_point_accepts_nothing() {
    let secret = PrivateKey::new_key();
    let hash = sha256::Hash::hash_bytes(b"x");
    let signature = Signature::sign_output(&hash, &secret).unwrap();
    let broken = PublicKey { tag: 9, x: secret.public_key().unwrap().x };
    assert!(!signature.verify(&hash, &broken));
}

#[test]
fn keys_and_signatures_are_written_and_read_as_bytes() {
    let secret = PrivateKey::new_key();
    let key = secret.public_key().unwrap();
    let bytes = key.to_sec1();
    assert_eq!(bytes.len(), 33);
    assert_eq!(bytes[0], key.tag);
    assert_eq!(bytes[1..], key.x.to_be_bytes()[..]);
    assert_eq!(PublicKey::from_sec1(&bytes), Some(key));
    assert_eq!(PublicKey::from_sec1(&bytes[..32]), None);
    let signature = Signature::sign_output(&sha256::Hash::hash_bytes(b"x"), &secret).unwrap();
    let raw = signature.to_bytes();
    assert_eq!(raw.len(), 64);
    assert_eq!(raw[..32], signature.r.to_be_bytes()[..]);
    assert_eq!(raw[32..], signature.s.to_be_bytes()[..]);
    assert_eq!(Signature::from_bytes(&raw), Some(signature));
    assert_eq!(Signature::from_bytes(&raw[..63]), None);
}

#[test]
fn a_public_key_is_read_from_pem() {
    let key = PrivateKey::new_key().public_key().unwrap();
    let pem = pem_of(&key);
    assert!(pem.starts_with("-----BEGIN PUBLIC KEY-----"));
    assert_eq!(PublicKey::from_pem(&pem), Ok(key));
}

#[test]
fn text_that_is_no_pem_is_refused() {
    assert_eq!(PublicKey::from_pem(""), Err(BtcError::IoError));
    assert_eq!(PublicKey::from_pem("not a key"), Err(BtcError::IoError));
    let key = PrivateKey::new_key().public_key().unwrap();
    let pem = pem_of(&key).replace("PUBLIC", "PRIVATE");
    assert_eq!(PublicKey::from_pem(&pem), Err(BtcError::IoError));
}

#[test]
fn a_recipient_is_loaded_from_the_text_of_its_key_file() {
    let key = PrivateKey::new_key().public_key().unwrap();
    let recipient = Recipient { name: "Billy".to_string(), key: PathBuf::from("billy.pub.pem") };
    let loaded = recipient.load(&pem_of(&key)).ok().expect("the text holds a key");
    assert_eq!(loaded.key, key);
    assert!(matches!(recipient.load("no key here"), Err(BtcError::IoError)));
}

#[test]
fn errors_describe_themselves() {
    assert_eq!(BtcError::InvalidTransaction.describe(), "Invalid transaction");
    assert_eq!(BtcError::InvalidBlock.describe(), "Invalid block");
    assert_eq!(BtcError::InvalidMerkleRoot.describe(), "Invalid Merkle root");
    assert_eq!(BtcError::InvalidSignature.describe(), "Invalid signature");
    assert_eq!(BtcError::IoError.describe(), "Invalid encoding");
}

#[test]
fn a_private_key_is_loaded_as_it_was_saved() {
    let key = PrivateKey::new_key();
    let bytes = key.save();
    assert_eq!(bytes.len(), 34);
    assert_eq!(bytes[..2], [0x58, 0x20]);
    assert_eq!(bytes[2..], key.scalar.to_be_bytes()[..]);
    assert_eq!(PrivateKey::load(&bytes), Ok(key));
    assert_eq!(PrivateKey::load(&bytes[..33]), Err(BtcError::IoError));
    let mut longer = bytes.clone();
    longer.push(0);
    assert_eq!(PrivateKey::load(&longer), Err(BtcError::IoError));
    assert_eq!(PrivateKey::load(&[]), Err(BtcError::IoError));
}

#[test]
fn a_public_key_is_written_as_pem_and_read_back() {
    let key = PrivateKey::new_key().public_key().unwrap();
    let pem = key.to_pem().expect("a key of a fresh secret is a point");
    assert_eq!(pem, pem_of(&key));
    assert!(pem.starts_with("-----BEGIN PUBLIC KEY-----\n"));
    assert!(pem.ends_with("-----END PUBLIC KEY-----\n"));
    assert_eq!(PublicKey::from_pem(&pem), Ok(key));
    let broken = PublicKey { tag: 9, x: key.x };
    assert_eq!(broken.to_pem(), None);
}
