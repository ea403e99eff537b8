//! Hashing, address encoding and signatures. Each primitive is computed by an
//! established crate; the ledger reasons about its results through the names
//! declared here.

use vstd::prelude::*;
use crate::codec::{hex_of, to_hex};

verus! {

/// The SHA-256 digest of a byte string.
pub uninterp spec fn sha256_of(data: Seq<u8>) -> Seq<u8>;

/// The RIPEMD-160 digest of a byte string.
pub uninterp spec fn ripemd160_of(data: Seq<u8>) -> Seq<u8>;

/// The base58 text of a byte string (Bitcoin alphabet).
pub uninterp spec fn base58_of(data: Seq<u8>) -> Seq<char>;

/// The bytes that a base58 text decodes to, if it is valid base58.
pub uninterp spec fn base58_decoded(text: Seq<char>) -> Option<Seq<u8>>;

/// The root of a Merkle tree whose single leaf is the SHA-256 digest of the data.
pub uninterp spec fn merkle_root_of(data: Seq<u8>) -> Seq<u8>;

/// Whether a P-256 ECDSA signature (fixed-length encoding) over a message
/// verifies under an uncompressed public key.
pub uninterp spec fn ecdsa_accepts(public_key: Seq<u8>, signature: Seq<u8>, message: Seq<u8>) -> bool;

/// The public key of a PKCS#8 P-256 key pair, if the document holds a valid one.
pub uninterp spec fn public_key_of(pkcs8: Seq<u8>) -> Option<Seq<u8>>;

/// Relies on ring's `digest::Context` with `SHA256`: a 32-byte digest that
/// depends on the data alone.
#[verifier::external_body]
pub fn sha256(data: &[u8]) -> (r: Vec<u8>)
    ensures
        r@ == sha256_of(data@),
        r@.len() == 32,
{
    let mut context = ring::digest::Context::new(&ring::digest::SHA256);
    context.update(data);
    context.finish().as_ref().to_vec()
}

/// Relies on `ripemd::Ripemd160`: a 20-byte digest that depends on the data alone.
#[verifier::external_body]
pub fn ripemd160(data: &[u8]) -> (r: Vec<u8>)
    ensures
        r@ == ripemd160_of(data@),
        r@.len() == 20,
{
    let mut hasher = <ripemd::Ripemd160 as ripemd::Digest>::new();
    ripemd::Digest::update(&mut hasher, data);
    ripemd::Digest::finalize(hasher).to_vec()
}

/// Relies on `bs58::encode(..).into_string()`, whose text `bs58::decode`
/// turns back into the same bytes.
#[verifier::external_body]
pub fn base58_encode(data: &[u8]) -> (r: String)
    ensures
        r@ == base58_of(data@),
        base58_decoded(r@) == Some(data@),
{
    bs58::encode(data).into_string()
}

/// Relies on `bs58::decode(..).into_vec()`, which fails on text that is not base58.
#[verifier::external_body]
pub fn base58_decode(data: &str) -> (r: Option<Vec<u8>>)
    ensures
        match r {
            Some(v) => base58_decoded(data@) == Some(v@),
            None => base58_decoded(data@).is_none(),
        },
{
    match bs58::decode(data).into_vec() {
        Ok(v) => Some(v),
        Err(_) => None,
    }
}

/// Relies on `rs_merkle::MerkleTree::<Sha256>::from_leaves` and `root` over the
/// single leaf `Sha256::hash(data)`.
#[verifier::external_body]
pub fn compute_root_hash(data: &[u8]) -> (r: Vec<u8>)
    ensures
        r@ == merkle_root_of(data@),
{
    let leaf = <rs_merkle::algorithms::Sha256 as rs_merkle::Hasher>::hash(data);
    let tree = rs_merkle::MerkleTree::<rs_merkle::algorithms::Sha256>::from_leaves(&[leaf]);
    match tree.root() {
        Some(root) => root.to_vec(),
        None => Vec::new(),
    }
}

/// Relies on ring's `UnparsedPublicKey::verify` with `ECDSA_P256_SHA256_FIXED`.
#[verifier::external_body]
pub fn ecdsa_signature_verify(public_key: &[u8], signature: &[u8], message: &[u8]) -> (r: bool)
    ensures
        r == ecdsa_accepts(public_key@, signature@, message@),
{
    let key = ring::signature::UnparsedPublicKey::new(&ring::signature::ECDSA_P256_SHA256_FIXED, public_key);
    key.verify(message, signature).is_ok()
}

/// Relies on ring's `EcdsaKeyPair::from_pkcs8` with `ECDSA_P256_SHA256_FIXED_SIGNING`
/// and `KeyPair::public_key`: when a key pair is parsed, its public key. Parsing
/// fails on a document that is no such key pair, and also when the system
/// random generator fails, so nothing is promised of a failure.
#[verifier::external_body]
pub(crate) fn public_key(pkcs8: &[u8]) -> (r: Option<Vec<u8>>)
    ensures
        r matches Some(v) ==> public_key_of(pkcs8@) == Some(v@),
{
    let rng = ring::rand::SystemRandom::new();
    let alg = &ring::signature::ECDSA_P256_SHA256_FIXED_SIGNING;
    match ring::signature::EcdsaKeyPair::from_pkcs8(alg, pkcs8, &rng) {
        Ok(pair) => Some(ring::signature::KeyPair::public_key(&pair).as_ref().to_vec()),
        Err(_) => None,
    }
}

/// Relies on ring's `EcdsaKeyPair::from_pkcs8` and `EcdsaKeyPair::sign` with
/// `ECDSA_P256_SHA256_FIXED_SIGNING`: a signature made with a key pair verifies
/// under that key pair's public key. Signing draws randomness, so which
/// signature comes back is not fixed.
#[verifier::external_body]
pub fn ecdsa_signature(pkcs8: &[u8], message: &[u8]) -> (r: Option<Vec<u8>>)
    ensures
        r matches Some(sig) ==> public_key_of(pkcs8@) matches Some(pk) && ecdsa_accepts(
            pk,
            sig@,
            message@,
        ),
{
    let rng = ring::rand::SystemRandom::new();
    let alg = &ring::signature::ECDSA_P256_SHA256_FIXED_SIGNING;
    match ring::signature::EcdsaKeyPair::from_pkcs8(alg, pkcs8, &rng) {
        Ok(pair) => match pair.sign(&rng, message) {
            Ok(sig) => Some(sig.as_ref().to_vec()),
            Err(_) => None,
        },
        Err(_) => None,
    }
}

/// Relies on ring's `EcdsaKeyPair::generate_pkcs8` with
/// `ECDSA_P256_SHA256_FIXED_SIGNING`: a fresh random key pair as a PKCS#8 document.
#[verifier::external_body]
pub fn random_private_key() -> (r: Option<Vec<u8>>) {
    let rng = ring::rand::SystemRandom::new();
    let alg = &ring::signature::ECDSA_P256_SHA256_FIXED_SIGNING;
    match ring::signature::EcdsaKeyPair::generate_pkcs8(alg, &rng) {
        Ok(doc) => Some(doc.as_ref().to_vec()),
        Err(_) => None,
    }
}

/// The SHA-256 digest of the data as lower-case hexadecimal text.
pub fn sha256_to_string(data: &[u8]) -> (r: String)
    ensures
        r@ == hex_of(sha256_of(data@)),
{
    let digest = sha256(data);
    to_hex(digest.as_slice())
}

} // verus!
