//! The primitives that the tunnel takes from other crates: BLAKE3, the
//! XChaCha20-Poly1305 AEAD, constant-time comparison and random bytes.

use chacha20poly1305::aead::{Aead, KeyInit};
use rand::RngCore;
use subtle::ConstantTimeEq;
use vstd::prelude::*;

verus! {

/// Bytes of an AEAD tag.
pub const AEAD_TAG: usize = 16;

/// What the AEAD of the `chacha20poly1305` crate reports when it refuses.
#[verifier::external_type_specification]
#[verifier::external_body]
pub struct ExAeadError(chacha20poly1305::aead::Error);

/// The BLAKE3 digest of `input`.
pub uninterp spec fn blake3_hash(input: Seq<u8>) -> [u8; 32];

/// The BLAKE3 digest of `input` under `key`.
pub uninterp spec fn blake3_keyed_hash(key: Seq<u8>, input: Seq<u8>) -> [u8; 32];

/// The XChaCha20-Poly1305 ciphertext of `plaintext`, with the tag behind it.
pub uninterp spec fn xchacha_seal(key: Seq<u8>, nonce: Seq<u8>, plaintext: Seq<u8>) -> Seq<u8>;

/// What XChaCha20-Poly1305 recovers from `ciphertext`, if its tag is right.
pub uninterp spec fn xchacha_open(key: Seq<u8>, nonce: Seq<u8>, ciphertext: Seq<u8>) -> Option<
    Seq<u8>,
>;

/// Whether the AEAD takes a message of `len` bytes: its block counter has 32 bits
/// and a block 64 bytes.
pub open spec fn aead_len_ok(len: nat) -> bool {
    len / 64 < 0xffff_ffff
}

/// Whether the key stream lasts for every message of `len` bytes that the AEAD
/// takes. It runs out, and the AEAD panics, only inside the very last block.
pub open spec fn aead_stream_lasts(len: nat) -> bool {
    aead_len_ok(len) ==> len <= 64 * 0xffff_fffe
}

/// Calls `blake3::hash`. Claims that the digest is a function of the input alone.
#[verifier::external_body]
pub(crate) fn hash(input: &[u8]) -> (digest: [u8; 32])
    ensures
        digest == blake3_hash(input@),
{
    *blake3::hash(input).as_bytes()
}

/// Calls `blake3::keyed_hash`, which gives what `Hasher::new_keyed`, `update`
/// and `finalize` give. Claims that the digest is a function of key and input
/// alone.
#[verifier::external_body]
pub(crate) fn keyed_hash(key: &[u8; 32], input: &[u8]) -> (digest: [u8; 32])
    ensures
        digest == blake3_keyed_hash(key@, input@),
{
    *blake3::keyed_hash(key, input).as_bytes()
}

/// Calls `XChaCha20Poly1305::encrypt` without associated data. Claims that it
/// refuses exactly the messages that are too long for the block counter, that
/// the ciphertext is a function of key, nonce and message and is one tag longer
/// than the message, that opening it gives the message back, and that nothing opens
/// which differs from it in the tag alone, since the tag is a function of key, nonce
/// and what is before it.
#[verifier::external_body]
pub(crate) fn seal(key: &[u8; 32], nonce: &[u8; 24], plaintext: &[u8]) -> (sealed: Result<
    Vec<u8>,
    chacha20poly1305::aead::Error,
>)
    requires
        plaintext@.len() + AEAD_TAG <= isize::MAX,
        aead_stream_lasts(plaintext@.len()),
    ensures
        sealed is Ok <==> aead_len_ok(plaintext@.len()),
        sealed matches Ok(c) ==> {
            &&& c@ == xchacha_seal(key@, nonce@, plaintext@)
            &&& c@.len() == plaintext@.len() + AEAD_TAG
            &&& xchacha_open(key@, nonce@, c@) == Some(plaintext@)
            &&& forall|other: Seq<u8>|
                other.len() == c@.len() && other.take(plaintext@.len() as int) == c@.take(
                    plaintext@.len() as int,
                ) && #[trigger] xchacha_open(key@, nonce@, other) is Some ==> other == c@
        },
{
    chacha20poly1305::XChaCha20Poly1305::new(key.into()).encrypt(
        chacha20poly1305::XNonce::from_slice(nonce),
        plaintext,
    )
}

/// Calls `XChaCha20Poly1305::decrypt` without associated data. Claims that the
/// outcome is a function of key, nonce and ciphertext, and that a message which
/// comes out is one tag shorter than its ciphertext and has it for its ciphertext: the
/// tag is held against that of the bytes before it, and these are the message under
/// the key stream.
#[verifier::external_body]
pub(crate) fn open(key: &[u8; 32], nonce: &[u8; 24], ciphertext: &[u8]) -> (opened: Result<
    Vec<u8>,
    chacha20poly1305::aead::Error,
>)
    requires
        ciphertext@.len() >= AEAD_TAG ==> aead_stream_lasts((ciphertext@.len() - AEAD_TAG) as nat),
    ensures
        opened is Ok <==> xchacha_open(key@, nonce@, ciphertext@) is Some,
        opened matches Ok(p) ==> {
            &&& xchacha_open(key@, nonce@, ciphertext@) == Some(p@)
            &&& p@.len() + AEAD_TAG == ciphertext@.len()
            &&& ciphertext@ == xchacha_seal(key@, nonce@, p@)
        },
{
    chacha20poly1305::XChaCha20Poly1305::new(key.into()).decrypt(
        chacha20poly1305::XNonce::from_slice(nonce),
        ciphertext,
    )
}

/// Calls `ct_eq` of the `subtle` crate on two byte slices. Claims that it tells
/// whether they hold the same bytes.
#[verifier::external_body]
pub(crate) fn constant_time_equal(a: &[u8], b: &[u8]) -> (equal: bool)
    ensures
        equal == (a@ == b@),
{
    a.ct_eq(b).into()
}

/// Calls `fill_bytes` of `rand::thread_rng`. Nothing is claimed of the bytes.
#[verifier::external_body]
pub(crate) fn random_nonce() -> (nonce: [u8; 24]) {
    let mut nonce = [0u8; 24];
    rand::thread_rng().fill_bytes(&mut nonce);
    nonce
}

} // verus!
