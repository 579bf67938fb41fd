//! Sealed fixes: what the server accepts, and how a client seals a fix.
//!
//! A client seals a fix under a 256-bit key shared with its readers. The
//! current time (seconds, then nanoseconds, little-endian: twelve bytes) is
//! encrypted under itself as nonce; the first twelve bytes of that
//! ciphertext are the outer nonce, under which the fix's payload is
//! encrypted. The client sends the outer nonce and the ciphertext as one
//! hex text. The server never decrypts: it only bounds the size.
use vstd::prelude::*;
use aes_gcm::aead::{Aead, KeyInit};
use crate::hexcodec::{encode_hex, hex_lower, hex_decoded, is_hex_text, lemma_hex_round_trip, lemma_hex_concat};

verus! {

/// The largest sealed payload the server stores, in bytes: about twice a
/// plaintext fix.
pub const MAX_SEALED_LEN: usize = 400;

/// The largest plaintext that AES-GCM encrypts, in bytes.
pub const AEAD_MAX_PLAIN: u64 = 68719476736;

/// Bytes that AES-GCM adds to a plaintext: the authentication tag.
pub const AEAD_TAG_LEN: usize = 16;

/// Bytes of an AES-GCM nonce.
pub const NONCE_LEN: usize = 12;

/// The largest payload whose sealed form the server accepts.
pub const MAX_SEALABLE_PAYLOAD: usize = 372;

/// A sealed payload that the server stores.
pub open spec fn sealed_fits(data: Seq<u8>) -> bool {
    data.len() <= MAX_SEALED_LEN
}

/// Whether the server accepts a sealed payload. It never reads the bytes.
pub fn accept_sealed(data: &Vec<u8>) -> (r: bool)
    ensures
        r == sealed_fits(data@),
{
    data.len() <= MAX_SEALED_LEN
}

/// What AES-256-GCM makes of `plain` under `key` and `nonce`, with no
/// associated data: the ciphertext followed by the tag.
pub uninterp spec fn aes256_gcm_seal(key: Seq<u8>, nonce: Seq<u8>, plain: Seq<u8>) -> Seq<u8>;

/// Relies on aes_gcm's Aes256Gcm and its Aead::encrypt, with no associated
/// data: it fails only on a plaintext over 2^36 bytes, and appends a 16-byte
/// tag to a ciphertext as long as the plaintext. Its error, which carries
/// nothing, becomes `None`.
#[verifier::external_body]
fn aead_encrypt(key: &[u8], nonce: &[u8], plain: &[u8]) -> (r: Option<Vec<u8>>)
    requires
        key@.len() == 32,
        nonce@.len() == NONCE_LEN,
    ensures
        r is Some <==> plain@.len() <= AEAD_MAX_PLAIN,
        r matches Some(c) ==> c@ == aes256_gcm_seal(key@, nonce@, plain@),
        r matches Some(c) ==> c@.len() == plain@.len() + AEAD_TAG_LEN,
{
    let cipher = aes_gcm::Aes256Gcm::new(aes_gcm::Key::<aes_gcm::Aes256Gcm>::from_slice(key));
    cipher.encrypt(aes_gcm::Nonce::from_slice(nonce), plain).ok()
}

/// The `n` low bytes of `v`, least significant first.
pub open spec fn le_bytes(v: nat, n: nat) -> Seq<u8>
    decreases n,
{
    if n == 0 {
        Seq::empty()
    } else {
        seq![(v % 256) as u8] + le_bytes(v / 256, (n - 1) as nat)
    }
}

/// The twelve bytes of a time: its seconds, then its nanoseconds.
pub open spec fn time_block(secs: u64, nanos: u32) -> Seq<u8> {
    le_bytes(secs as nat, 8) + le_bytes(nanos as nat, 4)
}

/// The outer nonce: the time block encrypted under itself, cut to a nonce.
pub open spec fn outer_nonce(key: Seq<u8>, t: Seq<u8>) -> Seq<u8> {
    aes256_gcm_seal(key, t, t).subrange(0, NONCE_LEN as int)
}

/// The bytes a sealed fix carries: the outer nonce, then the payload
/// encrypted under it.
pub open spec fn sealed_bytes(key: Seq<u8>, t: Seq<u8>, payload: Seq<u8>) -> Seq<u8> {
    outer_nonce(key, t) + aes256_gcm_seal(key, outer_nonce(key, t), payload)
}

/// Appends the `n` low bytes of `v` to `out`, least significant first.
fn push_le_bytes(out: &mut Vec<u8>, v: u64, n: usize)
    requires
        n <= 8,
    ensures
        final(out)@ == old(out)@ + le_bytes(v as nat, n as nat),
{
    let ghost start = out@;
    let mut x: u64 = v;
    let mut i: usize = 0;
    while i < n
        invariant
            i <= n,
            out@ + le_bytes(x as nat, (n - i) as nat) == start + le_bytes(v as nat, n as nat),
        decreases n - i,
    {
        let ghost before = out@;
        out.push((x % 256) as u8);
        proof {
            let rest = le_bytes((x / 256) as nat, (n - i - 1) as nat);
            assert(le_bytes(x as nat, (n - i) as nat) == seq![(x % 256) as u8] + rest);
            assert(out@ + rest =~= before + (seq![(x % 256) as u8] + rest));
        }
        x = x / 256;
        i = i + 1;
    }
    assert(le_bytes(x as nat, 0) =~= Seq::<u8>::empty());
    assert(out@ + Seq::<u8>::empty() =~= out@);
}

/// The time block of a moment: its seconds since the epoch, then its
/// nanoseconds, each little-endian.
pub fn time_block_bytes(secs: u64, nanos: u32) -> (r: Vec<u8>)
    ensures
        r@ == time_block(secs, nanos),
        r@.len() == NONCE_LEN,
{
    let mut r: Vec<u8> = Vec::new();
    push_le_bytes(&mut r, secs, 8);
    push_le_bytes(&mut r, nanos as u64, 4);
    assert(Seq::<u8>::empty() + le_bytes(secs as nat, 8) =~= le_bytes(secs as nat, 8));
    proof {
        lemma_le_bytes_len(secs as nat, 8);
        lemma_le_bytes_len(nanos as nat, 4);
    }
    r
}

proof fn lemma_le_bytes_len(v: nat, n: nat)
    ensures
        le_bytes(v, n).len() == n,
    decreases n,
{
    if n > 0 {
        lemma_le_bytes_len(v / 256, (n - 1) as nat);
    }
}

/// Seals a payload under `key` at the moment `secs`.`nanos`, as the hex
/// text a client sends. `None` only for a payload too long for AES-GCM.
/// A payload of at most `MAX_SEALABLE_PAYLOAD` bytes gives a text that
/// decodes to bytes the server accepts, whatever the key.
pub fn seal_point(key: &[u8], secs: u64, nanos: u32, payload: &[u8]) -> (r: Option<String>)
    requires
        key@.len() == 32,
    ensures
        r is Some <==> payload@.len() <= AEAD_MAX_PLAIN,
        r matches Some(s) ==> s@ == hex_lower(sealed_bytes(key@, time_block(secs, nanos), payload@)),
        r matches Some(s) ==> is_hex_text(s@),
        r matches Some(s) ==> hex_decoded(s@).len() == payload@.len() + NONCE_LEN + AEAD_TAG_LEN,
        r matches Some(s) ==> (sealed_fits(hex_decoded(s@)) <==> payload@.len() <= MAX_SEALABLE_PAYLOAD),
{
    let t = time_block_bytes(secs, nanos);
    let c0 = match aead_encrypt(key, t.as_slice(), t.as_slice()) {
        Some(c) => c,
        None => {
            return None;
        },
    };
    let mut nonce: Vec<u8> = Vec::new();
    let mut i: usize = 0;
    while i < NONCE_LEN
        invariant
            i <= NONCE_LEN,
            c0@.len() == NONCE_LEN + AEAD_TAG_LEN,
            nonce@ == c0@.subrange(0, i as int),
        decreases NONCE_LEN - i,
    {
        nonce.push(c0[i]);
        assert(c0@.subrange(0, i as int + 1) =~= c0@.subrange(0, i as int).push(c0@[i as int]));
        i = i + 1;
    }
    let c1 = match aead_encrypt(key, nonce.as_slice(), payload) {
        Some(c) => c,
        None => {
            return None;
        },
    };
    let mut text = encode_hex(nonce.as_slice());
    let tail = encode_hex(c1.as_slice());
    text.append(tail.as_str());
    proof {
        let b = sealed_bytes(key@, time_block(secs, nanos), payload@);
        lemma_hex_concat(nonce@, c1@);
        assert(nonce@ + c1@ == b);
        lemma_hex_round_trip(b);
    }
    Some(text)
}

} // verus!
