use vstd::prelude::*;
use crate::config::{Digest, PublicKey};

verus! {

#[verifier::external_type_specification]
#[verifier::external_body]
pub struct ExSecretKeyShare(threshold_crypto::SecretKeyShare);

/// The first 32 bytes of the SHA-512 hash of `data`.
pub uninterp spec fn sha512_head(data: Seq<u8>) -> Seq<u8>;

/// The ed25519 public key of the 32-byte secret key `secret`.
pub uninterp spec fn ed25519_public(secret: Seq<u8>) -> Seq<u8>;

/// Whether `sig` is a valid ed25519 signature by `key` over `msg`.
pub uninterp spec fn ed25519_valid(msg: Seq<u8>, key: Seq<u8>, sig: Seq<u8>) -> bool;

/// Whether `share` is a valid BLS signature share by the key share `key` over `msg`.
pub uninterp spec fn share_valid(key: Seq<u8>, share: Seq<u8>, msg: Seq<u8>) -> bool;

/// The signature combined from indexed shares under a key set of degree `threshold`, if any.
pub uninterp spec fn combined_sig(threshold: nat, shares: Seq<(u64, [u8; 96])>) -> Option<[u8; 96]>;

/// Whether `sig` is a valid BLS signature by the master key `key` over `msg`.
pub uninterp spec fn threshold_valid(key: Seq<u8>, sig: Seq<u8>, msg: Seq<u8>) -> bool;

/// Relies on sha2's `Sha512::digest` (re-exported by ed25519_dalek): a pure
/// function of the input bytes, of which the first 32 bytes are kept.
#[verifier::external_body]
pub(crate) fn hash_bytes(data: &Vec<u8>) -> (r: Digest)
    ensures
        r@ == sha512_head(data@),
{
    let h = <ed25519_dalek::Sha512 as ed25519_dalek::Digest>::digest(data.as_slice());
    let mut out = [0u8; 32];
    out.copy_from_slice(&h[..32]);
    out
}

/// Relies on ed25519_dalek's `PublicKey::from_bytes` and `Verifier::verify`:
/// `false` when the key or the signature does not decode or the check fails.
#[verifier::external_body]
pub(crate) fn verify_signature(msg: &Digest, key: &PublicKey, sig: &[u8; 64]) -> (r: bool)
    ensures
        r == ed25519_valid(msg@, key@, sig@),
{
    let pk = match ed25519_dalek::PublicKey::from_bytes(key) {
        Ok(pk) => pk,
        Err(_) => return false,
    };
    let s = match ed25519_dalek::Signature::from_bytes(sig) {
        Ok(s) => s,
        Err(_) => return false,
    };
    ed25519_dalek::Verifier::verify(&pk, msg, &s).is_ok()
}

/// Relies on ed25519_dalek's `SecretKey::from_bytes` (it fails only on a length
/// other than 32) and `PublicKey::from(&SecretKey)`.
#[verifier::external_body]
pub(crate) fn public_key_of(secret: &[u8; 32]) -> (r: PublicKey)
    ensures
        r@ == ed25519_public(secret@),
{
    match ed25519_dalek::SecretKey::from_bytes(secret) {
        Ok(sk) => ed25519_dalek::PublicKey::from(&sk).to_bytes(),
        Err(_) => [0u8; 32],
    }
}

/// Relies on ed25519_dalek's `SecretKey::from_bytes`, `ExpandedSecretKey::from`
/// and `ExpandedSecretKey::sign` with the key's own public key: an ed25519
/// signature, which verification accepts under that public key.
#[verifier::external_body]
pub(crate) fn sign_digest(secret: &[u8; 32], msg: &Digest) -> (r: [u8; 64])
    ensures
        ed25519_valid(msg@, ed25519_public(secret@), r@),
{
    match ed25519_dalek::SecretKey::from_bytes(secret) {
        Ok(sk) => {
            let public = ed25519_dalek::PublicKey::from(&sk);
            ed25519_dalek::ExpandedSecretKey::from(&sk).sign(msg, &public).to_bytes()
        },
        Err(_) => [0u8; 64],
    }
}

/// Relies on threshold_crypto's `PublicKeyShare::from_bytes`,
/// `SignatureShare::from_bytes` and `PublicKeyShare::verify`.
#[verifier::external_body]
pub(crate) fn verify_share(key: &[u8; 48], share: &[u8; 96], msg: &Digest) -> (r: bool)
    ensures
        r == share_valid(key@, share@, msg@),
{
    let k = match threshold_crypto::PublicKeyShare::from_bytes(key) {
        Ok(k) => k,
        Err(_) => return false,
    };
    let s = match threshold_crypto::SignatureShare::from_bytes(share) {
        Ok(s) => s,
        Err(_) => return false,
    };
    k.verify(&s, msg)
}

/// Relies on threshold_crypto's `PublicKey::from_bytes`, `Signature::from_bytes`
/// and `PublicKey::verify`.
#[verifier::external_body]
pub(crate) fn verify_threshold(key: &[u8; 48], sig: &[u8; 96], msg: &Digest) -> (r: bool)
    ensures
        r == threshold_valid(key@, sig@, msg@),
{
    let k = match threshold_crypto::PublicKey::from_bytes(key) {
        Ok(k) => k,
        Err(_) => return false,
    };
    let s = match threshold_crypto::Signature::from_bytes(sig) {
        Ok(s) => s,
        Err(_) => return false,
    };
    k.verify(&s, msg)
}

/// Relies on threshold_crypto's `SecretKeyShare::sign` and `SignatureShare::to_bytes`.
#[verifier::external_body]
pub(crate) fn sign_share(key: &threshold_crypto::SecretKeyShare, msg: &Digest) -> (r: [u8; 96]) {
    key.sign(msg).to_bytes()
}

/// Relies on threshold_crypto's `SignatureShare::from_bytes`, `Poly::monomial`,
/// `Poly::commitment` and `PublicKeySet::combine_signatures`: interpolation at
/// zero of the first `threshold + 1` shares, which depends on the key set only
/// through its degree; `None` when a share does not decode or there are too few.
#[verifier::external_body]
pub(crate) fn combine_shares(threshold: usize, shares: &Vec<(u64, [u8; 96])>) -> (r: Option<[u8; 96]>)
    ensures
        r == combined_sig(threshold as nat, shares@),
{
    let key_set = threshold_crypto::PublicKeySet::from(threshold_crypto::poly::Poly::monomial(threshold).commitment());
    let mut decoded = Vec::new();
    for (i, b) in shares.iter() {
        match threshold_crypto::SignatureShare::from_bytes(b) {
            Ok(s) => decoded.push((*i, s)),
            Err(_) => return None,
        }
    }
    key_set.combine_signatures(decoded.iter().map(|(i, s)| (*i, s))).ok().map(|s| s.to_bytes())
}

} // verus!
