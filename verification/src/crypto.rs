//! Keys and signatures over the curve secp256k1.

use crate::codec::{dec_u256, enc_u256, get_u256, put_u256};
use crate::error::BtcError;
use crate::u256::U256;
use k256::ecdsa::signature::{Signer, Verifier};
use k256::ecdsa::{SigningKey, VerifyingKey};
use k256::elliptic_curve::sec1::ToEncodedPoint;
use k256::pkcs8::{DecodePublicKey, EncodePublicKey};
use vstd::prelude::*;

verus! {

/// Whether ECDSA over secp256k1 with SHA-256 accepts `signature` (the numbers `r` and
/// `s`, 32 bytes each) for `message` under the SEC1-encoded public key `key`.
pub uninterp spec fn ecdsa_accepts(key: Seq<u8>, message: Seq<u8>, signature: Seq<u8>) -> bool;

/// The deterministic ECDSA signature of `message` under the secret scalar `secret`, or
/// `None` where `secret` is no valid scalar.
pub uninterp spec fn ecdsa_signature(secret: Seq<u8>, message: Seq<u8>) -> Option<Seq<u8>>;

/// The compressed SEC1 encoding of the public key that belongs to the secret scalar
/// `secret`, or `None` where `secret` is no valid scalar.
pub uninterp spec fn secp256k1_public_key(secret: Seq<u8>) -> Option<Seq<u8>>;

/// The compressed SEC1 encoding of the secp256k1 public key that a PEM document holds,
/// or `None` where the text is no such document.
pub uninterp spec fn pem_public_key(text: Seq<char>) -> Option<Seq<u8>>;

/// The PEM document that holds the secp256k1 public key with the SEC1 encoding `key`,
/// with line feeds as line endings, or `None` where `key` encodes no point of the curve.
pub uninterp spec fn public_key_pem(key: Seq<u8>) -> Option<Seq<char>>;

/// Verifies with `k256`: parses the key with `VerifyingKey::from_sec1_bytes`, the
/// signature with `Signature::from_slice`, and calls `Verifier::verify`. A key or a
/// signature that does not parse is not accepted. The contract only names the answer.
#[verifier::external_body]
fn ecdsa_verify(key: &[u8], message: &[u8], signature: &[u8]) -> (ok: bool)
    ensures
        ok == ecdsa_accepts(key@, message@, signature@),
{
    match (VerifyingKey::from_sec1_bytes(key), k256::ecdsa::Signature::from_slice(signature)) {
        (Ok(k), Ok(s)) => k.verify(message, &s).is_ok(),
        _ => false,
    }
}

/// Signs with `k256`: parses the scalar with `SigningKey::from_slice` and calls
/// `Signer::try_sign`, which derives its nonce from key and message alone. The contract
/// only names the signature.
#[verifier::external_body]
fn ecdsa_sign(secret: &[u8], message: &[u8]) -> (r: Option<Vec<u8>>)
    ensures
        match r {
            Some(v) => ecdsa_signature(secret@, message@) == Some(v@),
            None => ecdsa_signature(secret@, message@).is_none(),
        },
{
    let key = SigningKey::from_slice(secret).ok()?;
    let signature: k256::ecdsa::Signature = key.try_sign(message).ok()?;
    Some(signature.to_vec())
}

/// Derives the public key with `k256`: `SigningKey::from_slice`, then
/// `verifying_key().to_encoded_point(true)`. The contract only names the encoding.
#[verifier::external_body]
fn derive_public_key(secret: &[u8]) -> (r: Option<Vec<u8>>)
    ensures
        match r {
            Some(v) => secp256k1_public_key(secret@) == Some(v@),
            None => secp256k1_public_key(secret@).is_none(),
        },
{
    let key = SigningKey::from_slice(secret).ok()?;
    Some(key.verifying_key().to_encoded_point(true).as_bytes().to_vec())
}

/// Reads a PEM document with `k256::PublicKey::from_public_key_pem` and encodes the key
/// with `to_encoded_point(true)`. The contract only names the encoding.
#[verifier::external_body]
fn decode_public_key_pem(text: &str) -> (r: Option<Vec<u8>>)
    ensures
        match r {
            Some(v) => pem_public_key(text@) == Some(v@),
            None => pem_public_key(text@).is_none(),
        },
{
    let key = k256::PublicKey::from_public_key_pem(text).ok()?;
    Some(key.to_encoded_point(true).as_bytes().to_vec())
}

/// Writes a PEM document with `k256`: parses the key with
/// `PublicKey::from_sec1_bytes` and calls `to_public_key_pem` with line feeds as line
/// endings. The contract only names the document.
#[verifier::external_body]
fn encode_public_key_pem(key: &[u8]) -> (r: Option<String>)
    ensures
        match r {
            Some(text) => public_key_pem(key@) == Some(text@),
            None => public_key_pem(key@).is_none(),
        },
{
    let key = k256::PublicKey::from_sec1_bytes(key).ok()?;
    key.to_public_key_pem(k256::pkcs8::LineEnding::LF).ok()
}

/// A public key: a point of the curve in compressed SEC1 form, the tag byte and the
/// `x` coordinate.
#[derive(Clone, Copy, Debug, PartialEq, Eq, Structural)]
pub struct PublicKey {
    pub tag: u8,
    pub x: U256,
}

/// A secret scalar.
#[derive(Clone, Copy, Debug, PartialEq, Eq, Structural)]
pub struct PrivateKey {
    pub scalar: U256,
}

/// An ECDSA signature: the numbers `r` and `s`.
#[derive(Clone, Copy, Debug, PartialEq, Eq, Structural)]
pub struct Signature {
    pub r: U256,
    pub s: U256,
}

impl PublicKey {
    /// The 33 bytes of the compressed SEC1 encoding.
    pub open spec fn spec_sec1(self) -> Seq<u8> {
        seq![self.tag] + self.x.spec_to_be_bytes()
    }

    /// The key that 33 bytes of a compressed SEC1 encoding stand for.
    pub open spec fn spec_from_sec1(bytes: Seq<u8>) -> Option<PublicKey> {
        if bytes.len() == 33 {
            Some(PublicKey { tag: bytes[0], x: U256::spec_from_be_bytes(bytes.subrange(1, 33)) })
        } else {
            None
        }
    }

    /// The key that a PEM document holds, if it holds one in 33 bytes.
    pub open spec fn spec_from_pem(text: Seq<char>) -> Option<PublicKey> {
        match pem_public_key(text) {
            Some(bytes) => PublicKey::spec_from_sec1(bytes),
            None => None,
        }
    }

    /// The compressed SEC1 encoding of the key.
    pub fn to_sec1(&self) -> (bytes: Vec<u8>)
        ensures
            bytes@ == self.spec_sec1(),
    {
        let x: [u8; 32] = self.x.to_be_bytes();
        let mut bytes: Vec<u8> = Vec::new();
        bytes.push(self.tag);
        let mut i: usize = 0;
        while i < 32
            invariant
                0 <= i <= 32,
                bytes@ == seq![self.tag] + x@.take(i as int),
            decreases 32 - i,
        {
            bytes.push(x[i]);
            assert(x@.take(i + 1) =~= x@.take(i as int).push(x@[i as int]));
            i += 1;
        }
        assert(x@.take(32) =~= x@);
        bytes
    }

    /// Reads a key from the 33 bytes of a compressed SEC1 encoding.
    pub fn from_sec1(bytes: &[u8]) -> (r: Option<PublicKey>)
        ensures
            r == PublicKey::spec_from_sec1(bytes@),
    {
        if bytes.len() != 33 {
            return None;
        }
        let x: [u8; 32] = copy_32(bytes, 1);
        Some(PublicKey { tag: bytes[0], x: U256::from_be_bytes(&x) })
    }

    /// The key as a PEM document; `None` where the key is no point of the curve.
    pub fn to_pem(&self) -> (r: Option<String>)
        ensures
            match r {
                Some(text) => public_key_pem(self.spec_sec1()) == Some(text@),
                None => public_key_pem(self.spec_sec1()).is_none(),
            },
    {
        let bytes: Vec<u8> = self.to_sec1();
        encode_public_key_pem(bytes.as_slice())
    }

    /// Reads a key from a PEM document; `IoError` where the text holds no key.
    pub fn from_pem(text: &str) -> (r: Result<PublicKey, BtcError>)
        ensures
            match r {
                Ok(key) => PublicKey::spec_from_pem(text@) == Some(key),
                Err(e) => e == BtcError::IoError && PublicKey::spec_from_pem(text@).is_none(),
            },
    {
        match decode_public_key_pem(text) {
            Some(bytes) => match PublicKey::from_sec1(bytes.as_slice()) {
                Some(key) => Ok(key),
                None => Err(BtcError::IoError),
            },
            None => Err(BtcError::IoError),
        }
    }
}

impl PrivateKey {
    /// The public key of this secret, if the scalar is a valid one.
    pub open spec fn spec_public_key(self) -> Option<PublicKey> {
        match secp256k1_public_key(self.scalar.spec_to_be_bytes()) {
            Some(bytes) => PublicKey::spec_from_sec1(bytes),
            None => None,
        }
    }

    /// The encoding of the key: its scalar as a byte string.
    pub open spec fn spec_save(self) -> Seq<u8> {
        enc_u256(self.scalar)
    }

    /// The key that some bytes stand for, if they are the encoding of one and nothing
    /// more.
    pub open spec fn spec_load(bytes: Seq<u8>) -> Option<PrivateKey> {
        match dec_u256(bytes, 0) {
            Some((scalar, next)) => if next == bytes.len() {
                Some(PrivateKey { scalar })
            } else {
                None
            },
            None => None,
        }
    }

    /// Loading what was saved gives back the key.
    pub proof fn lemma_save_load(self)
        ensures
            PrivateKey::spec_load(self.spec_save()) == Some(self),
    {
        crate::codec::lemma_occurs_whole(self.spec_save());
        crate::codec::lemma_u256_round_trip(self.spec_save(), 0, self.scalar);
    }

    /// The encoding of the key.
    pub fn save(&self) -> (bytes: Vec<u8>)
        ensures
            bytes@ == self.spec_save(),
    {
        let mut bytes: Vec<u8> = Vec::new();
        put_u256(&mut bytes, &self.scalar);
        assert(bytes@ =~= self.spec_save());
        bytes
    }

    /// The key that `bytes` stand for; `IoError` where they are not the encoding of a
    /// key and nothing more.
    pub fn load(bytes: &[u8]) -> (r: Result<PrivateKey, BtcError>)
        ensures
            match r {
                Ok(key) => PrivateKey::spec_load(bytes@) == Some(key),
                Err(e) => e == BtcError::IoError && PrivateKey::spec_load(bytes@).is_none(),
            },
    {
        match get_u256(bytes, 0) {
            Some((scalar, next)) => if next == bytes.len() {
                Ok(PrivateKey { scalar })
            } else {
                Err(BtcError::IoError)
            },
            None => Err(BtcError::IoError),
        }
    }

    /// Whether the scalar is a valid one: not zero and below the order of the group. A
    /// key with such a scalar, and no other, has a public key.
    pub open spec fn is_valid(self) -> bool {
        self.spec_public_key().is_some()
    }

    /// A fresh random key. Its scalar is a valid one, so that the key has a public key;
    /// which of the valid scalars it is, is left to the system's random source.
    pub fn new_key() -> (key: PrivateKey)
        ensures
            key.is_valid(),
    {
        let secret: [u8; 32] = random_secret();
        proof {
            U256::lemma_be_bytes_read_back(secret@);
        }
        PrivateKey { scalar: U256::from_be_bytes(&secret) }
    }

    /// The public key that belongs to this secret; `None` where the scalar is not valid.
    pub fn public_key(&self) -> (r: Option<PublicKey>)
        ensures
            r == self.spec_public_key(),
    {
        let secret: [u8; 32] = self.scalar.to_be_bytes();
        match derive_public_key(vstd::array::array_as_slice(&secret)) {
            Some(bytes) => PublicKey::from_sec1(bytes.as_slice()),
            None => None,
        }
    }
}

impl Signature {
    /// The 64 bytes of the signature: `r`, then `s`.
    pub open spec fn spec_bytes(self) -> Seq<u8> {
        self.r.spec_to_be_bytes() + self.s.spec_to_be_bytes()
    }

    /// The signature that 64 bytes stand for.
    pub open spec fn spec_from_bytes(bytes: Seq<u8>) -> Option<Signature> {
        if bytes.len() == 64 {
            Some(
                Signature {
                    r: U256::spec_from_be_bytes(bytes.subrange(0, 32)),
                    s: U256::spec_from_be_bytes(bytes.subrange(32, 64)),
                },
            )
        } else {
            None
        }
    }

    /// Whether the signature is one of `hash` under `key`.
    pub open spec fn spec_verify(self, hash: crate::sha256::Hash, key: PublicKey) -> bool {
        ecdsa_accepts(key.spec_sec1(), hash.value.spec_to_be_bytes(), self.spec_bytes())
    }

    /// The signature of `hash` under `key`, if the key's scalar is a valid one.
    pub open spec fn spec_sign(hash: crate::sha256::Hash, key: PrivateKey) -> Option<Signature> {
        match ecdsa_signature(key.scalar.spec_to_be_bytes(), hash.value.spec_to_be_bytes()) {
            Some(bytes) => Signature::spec_from_bytes(bytes),
            None => None,
        }
    }

    /// The 64 bytes of the signature.
    pub fn to_bytes(&self) -> (bytes: Vec<u8>)
        ensures
            bytes@ == self.spec_bytes(),
    {
        let r: [u8; 32] = self.r.to_be_bytes();
        let s: [u8; 32] = self.s.to_be_bytes();
        let mut bytes: Vec<u8> = Vec::new();
        let mut i: usize = 0;
        while i < 32
            invariant
                0 <= i <= 32,
                bytes@ == r@.take(i as int),
            decreases 32 - i,
        {
            bytes.push(r[i]);
            assert(r@.take(i + 1) =~= r@.take(i as int).push(r@[i as int]));
            i += 1;
        }
        assert(r@.take(32) =~= r@);
        i = 0;
        while i < 32
            invariant
                0 <= i <= 32,
                bytes@ == r@ + s@.take(i as int),
            decreases 32 - i,
        {
            bytes.push(s[i]);
            assert(s@.take(i + 1) =~= s@.take(i as int).push(s@[i as int]));
            i += 1;
        }
        assert(s@.take(32) =~= s@);
        bytes
    }

    /// Reads a signature from 64 bytes.
    pub fn from_bytes(bytes: &[u8]) -> (r: Option<Signature>)
        ensures
            r == Signature::spec_from_bytes(bytes@),
    {
        if bytes.len() != 64 {
            return None;
        }
        let r: [u8; 32] = copy_32(bytes, 0);
        let s: [u8; 32] = copy_32(bytes, 32);
        Some(Signature { r: U256::from_be_bytes(&r), s: U256::from_be_bytes(&s) })
    }

    /// Signs the hash of an output with a private key; `None` where the key's scalar is
    /// not valid.
    pub fn sign_output(output_hash: &crate::sha256::Hash, private_key: &PrivateKey) -> (r: Option<Signature>)
        ensures
            r == Signature::spec_sign(*output_hash, *private_key),
    {
        let secret: [u8; 32] = private_key.scalar.to_be_bytes();
        let message: [u8; 32] = output_hash.as_bytes();
        match ecdsa_sign(vstd::array::array_as_slice(&secret), vstd::array::array_as_slice(&message)) {
            Some(bytes) => Signature::from_bytes(bytes.as_slice()),
            None => None,
        }
    }

    /// Whether the signature is one of `output_hash` under `public_key`.
    pub fn verify(&self, output_hash: &crate::sha256::Hash, public_key: &PublicKey) -> (ok: bool)
        ensures
            ok == self.spec_verify(*output_hash, *public_key),
    {
        let key: Vec<u8> = public_key.to_sec1();
        let message: [u8; 32] = output_hash.as_bytes();
        let signature: Vec<u8> = self.to_bytes();
        ecdsa_verify(key.as_slice(), vstd::array::array_as_slice(&message), signature.as_slice())
    }
}

/// Reading back the bytes of a signature gives the signature.
pub proof fn lemma_signature_round_trip(signature: Signature)
    ensures
        signature.spec_bytes().len() == 64,
        Signature::spec_from_bytes(signature.spec_bytes()) == Some(signature),
{
    signature.r.lemma_be_bytes_round_trip();
    signature.s.lemma_be_bytes_round_trip();
    let bytes = signature.spec_bytes();
    assert(bytes.subrange(0, 32) =~= signature.r.spec_to_be_bytes());
    assert(bytes.subrange(32, 64) =~= signature.s.spec_to_be_bytes());
}

/// Reading back the bytes of a public key gives the key.
pub proof fn lemma_public_key_round_trip(key: PublicKey)
    ensures
        key.spec_sec1().len() == 33,
        PublicKey::spec_from_sec1(key.spec_sec1()) == Some(key),
{
    key.x.lemma_be_bytes_round_trip();
    let bytes = key.spec_sec1();
    assert(bytes.subrange(1, 33) =~= key.x.spec_to_be_bytes());
}

/// Draws a secret scalar with `SigningKey::random` from the system's random source and
/// writes it with `to_bytes`. `SigningKey::random` draws a scalar that is not zero and
/// below the order of the group; `SigningKey::from_slice` takes the 32 bytes of such a
/// scalar, and the compressed point of its verifying key has a tag and 32 bytes. So
/// the contract claims that the bytes have a public key of 33 bytes. Of which scalar it
/// is nothing is claimed.
#[verifier::external_body]
fn random_secret() -> (secret: [u8; 32])
    ensures
        match secp256k1_public_key(secret@) {
            Some(key) => key.len() == 33,
            None => false,
        },
{
    SigningKey::random(&mut rand_core::OsRng).to_bytes().into()
}

/// Copies the 32 bytes of `bytes` from `at` on.
fn copy_32(bytes: &[u8], at: usize) -> (r: [u8; 32])
    requires
        at + 32 <= bytes.len(),
    ensures
        r@ == bytes@.subrange(at as int, at + 32),
{
    let r: [u8; 32] = [
        bytes[at], bytes[at + 1], bytes[at + 2], bytes[at + 3], bytes[at + 4], bytes[at + 5],
        bytes[at + 6], bytes[at + 7], bytes[at + 8], bytes[at + 9], bytes[at + 10], bytes[at + 11],
        bytes[at + 12], bytes[at + 13], bytes[at + 14], bytes[at + 15], bytes[at + 16],
        bytes[at + 17], bytes[at + 18], bytes[at + 19], bytes[at + 20], bytes[at + 21],
        bytes[at + 22], bytes[at + 23], bytes[at + 24], bytes[at + 25], bytes[at + 26],
        bytes[at + 27], bytes[at + 28], bytes[at + 29], bytes[at + 30], bytes[at + 31],
    ];
    assert(r@ =~= bytes@.subrange(at as int, at + 32));
    r
}

} // verus!
