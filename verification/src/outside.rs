//! The calls this library makes into outside crates, each behind a contract
//! that states what the crate's source shows of it.
use vstd::prelude::*;
use rand::RngCore;
use ed25519_dalek_fiat::{Signer, Verifier};

verus! {

/// The SHA-1 digest of a byte string (computed by `sha1_smol`).
pub uninterp spec fn sha1(data: Seq<u8>) -> Seq<u8>;

/// `sha1_smol::Sha1::from(data).digest().bytes()`: the 20-byte SHA-1 digest of
/// `data`. Claimed: the result is the function `sha1` of the input bytes.
#[verifier::external_body]
pub fn sha1_digest(data: &[u8]) -> (digest: [u8; 20])
    ensures
        digest@ == sha1(data@),
{
    sha1_smol::Sha1::from(data).digest().bytes()
}

/// Twenty bytes from `rand`'s thread-local generator
/// (`rand::rngs::ThreadRng::fill_bytes`). Nothing is claimed of their values.
#[verifier::external_body]
pub fn random_bytes_20() -> (bytes: [u8; 20]) {
    let mut rng = rand::rngs::ThreadRng::default();
    let mut val = [0u8; 20];
    rng.fill_bytes(&mut val);
    val
}

/// The error `hex::decode_to_slice` reports, variant for variant.
#[derive(Debug, Clone, Copy, PartialEq, Eq)]
pub enum HexError {
    InvalidHexCharacter { c: char, index: usize },
    OddLength,
    InvalidStringLength,
}

/// The value of a hex digit (either case), as `hex` reads it.
pub open spec fn hex_val(c: u8) -> Option<u8> {
    if 65 <= c <= 70 {
        Some((c - 65 + 10) as u8)
    } else if 97 <= c <= 102 {
        Some((c - 97 + 10) as u8)
    } else if 48 <= c <= 57 {
        Some((c - 48) as u8)
    } else {
        None
    }
}

/// The first position at or after `from` that does not hold a hex digit.
pub open spec fn first_non_hex(data: Seq<u8>, from: int) -> Option<int>
    decreases data.len() - from,
{
    if from < 0 || from >= data.len() {
        None
    } else if hex_val(data[from]) is None {
        Some(from)
    } else {
        first_non_hex(data, from + 1)
    }
}

/// What `hex::decode_to_slice` gives for the input `data` and a 20-byte
/// output: odd length first, then a length other than 40, then the first
/// character that is not a hex digit, else the decoded bytes.
pub open spec fn spec_hex_decode_20(data: Seq<u8>) -> Result<Seq<u8>, HexError> {
    if data.len() % 2 != 0 {
        Err(HexError::OddLength)
    } else if data.len() / 2 != 20 {
        Err(HexError::InvalidStringLength)
    } else {
        match first_non_hex(data, 0) {
            Some(idx) => Err(HexError::InvalidHexCharacter { c: data[idx] as char, index: idx as usize }),
            None => Ok(
                Seq::new(
                    20,
                    |i: int| (hex_val(data[2 * i])->0 * 16 + hex_val(data[2 * i + 1])->0) as u8,
                ),
            ),
        }
    }
}

/// `hex::decode_to_slice` into a 20-byte buffer. Claimed: the outcome is
/// `spec_hex_decode_20` of the input bytes, read off `hex`'s source.
#[verifier::external_body]
pub fn hex_decode_20(data: &[u8]) -> (res: Result<[u8; 20], HexError>)
    ensures
        match res {
            Ok(bytes) => spec_hex_decode_20(data@) == Ok::<Seq<u8>, HexError>(bytes@),
            Err(e) => spec_hex_decode_20(data@) == Err::<Seq<u8>, HexError>(e),
        },
{
    let mut out = [0u8; 20];
    match hex::decode_to_slice(data, &mut out) {
        Ok(()) => Ok(out),
        Err(hex::FromHexError::InvalidHexCharacter { c, index }) => Err(
            HexError::InvalidHexCharacter { c, index },
        ),
        Err(hex::FromHexError::OddLength) => Err(HexError::OddLength),
        Err(hex::FromHexError::InvalidStringLength) => Err(HexError::InvalidStringLength),
    }
}

/// An upper-case hex digit for a value below 16.
pub open spec fn hex_digit_upper(n: u8) -> char {
    if n < 10 {
        (48 + n) as char
    } else {
        (65 + n - 10) as char
    }
}

/// The upper-case hex rendering of a byte string, two digits per byte, high
/// nibble first.
pub open spec fn spec_hex_upper(data: Seq<u8>) -> Seq<char>
    decreases data.len(),
{
    if data.len() == 0 {
        Seq::empty()
    } else {
        seq![hex_digit_upper(data[0] >> 4), hex_digit_upper(data[0] & 0x0f)] + spec_hex_upper(
            data.drop_first(),
        )
    }
}

/// `hex::encode_upper`: two upper-case digits per byte, as `spec_hex_upper`.
#[verifier::external_body]
pub fn hex_encode_upper(data: &[u8]) -> (s: String)
    ensures
        s@ == spec_hex_upper(data@),
{
    hex::encode_upper(data)
}

/// Whether `time` can represent the Unix timestamp `t` (in nanoseconds) as
/// an `OffsetDateTime`: what `OffsetDateTime::from_unix_timestamp_nanos(t)`
/// answers, which depends on the features `time` was built with.
pub uninterp spec fn timestamp_in_range(t: i128) -> bool;

/// Whether `time` can represent the instant `t` (Unix nanoseconds) seen at
/// the UTC offset `offset` (seconds east of UTC): whether
/// `OffsetDateTime::from_unix_timestamp_nanos(t)`,
/// `UtcOffset::from_whole_seconds(offset)` and `checked_to_offset` all
/// succeed.
pub uninterp spec fn datetime_in_range(t: i128, offset: i32) -> bool;

/// The three `time` calls `datetime_in_range` names. Claimed: the answer is
/// that name; at offset zero (UTC, which every instant has) it is whether
/// `time` can represent the instant at all.
#[verifier::external_body]
pub fn datetime_valid(t: i128, offset: i32) -> (ok: bool)
    ensures
        ok == datetime_in_range(t, offset),
        offset == 0 ==> ok == timestamp_in_range(t),
{
    match (time::OffsetDateTime::from_unix_timestamp_nanos(t), time::UtcOffset::from_whole_seconds(offset)) {
        (Ok(d), Ok(o)) => d.checked_to_offset(o).is_some(),
        _ => false,
    }
}

/// The current time as Unix nanoseconds
/// (`time::OffsetDateTime::now_utc().unix_timestamp_nanos()`). Its value
/// depends on the clock; claimed only that it is a timestamp `time` can
/// represent, and so (its years being bounded by a million) far inside the
/// range of `i128`.
#[verifier::external_body]
pub fn now_utc_nanos() -> (t: i128)
    ensures
        timestamp_in_range(t),
        -0x10_0000_0000_0000_0000_0000_0000i128 < t < 0x10_0000_0000_0000_0000_0000_0000i128,
{
    time::OffsetDateTime::now_utc().unix_timestamp_nanos()
}

/// Whether `sig` is a valid Ed25519 signature of `msg` under the public key
/// `pk` (what `ed25519_dalek_fiat::PublicKey::verify` decides).
pub uninterp spec fn ed25519_verifies(pk: Seq<u8>, msg: Seq<u8>, sig: Seq<u8>) -> bool;

/// `ed25519_dalek_fiat::PublicKey::from_bytes(pk)` then `verify(msg, sig)`;
/// a key or signature that does not parse does not verify. Claimed: the
/// answer is `ed25519_verifies` of the three byte strings.
#[verifier::external_body]
pub fn verify_signature(pk: &[u8; 32], msg: &[u8], sig: &[u8; 64]) -> (ok: bool)
    ensures
        ok == ed25519_verifies(pk@, msg@, sig@),
{
    let key = match ed25519_dalek_fiat::PublicKey::from_bytes(pk) {
        Ok(k) => k,
        Err(_) => return false,
    };
    let signature = match ed25519_dalek_fiat::Signature::from_bytes(sig) {
        Ok(s) => s,
        Err(_) => return false,
    };
    key.verify(msg, &signature).is_ok()
}

/// The Ed25519 signature of `msg` under the 64-byte keypair `keypair`
/// (secret key, then public key), or `None` when `Keypair::from_bytes`
/// refuses the bytes. Ed25519 signing is deterministic.
pub uninterp spec fn ed25519_sign(keypair: Seq<u8>, msg: Seq<u8>) -> Option<Seq<u8>>;

/// The Ed25519 public key of a 32-byte secret key (what
/// `PublicKey::from(&SecretKey)` derives).
pub uninterp spec fn ed25519_public(secret: Seq<u8>) -> Seq<u8>;

/// A 64-byte keypair whose second half is the public key of its first half.
pub open spec fn keypair_consistent(keypair: Seq<u8>) -> bool {
    keypair.len() == 64 && keypair.subrange(32, 64) == ed25519_public(keypair.subrange(0, 32))
}

/// `ed25519_dalek_fiat::SecretKey::from_bytes` (which accepts any 32 bytes)
/// then `PublicKey::from`: claimed to be `ed25519_public` of the bytes.
#[verifier::external_body]
pub fn public_key_of(secret: &[u8; 32]) -> (pk: [u8; 32])
    ensures
        pk@ == ed25519_public(secret@),
{
    let sk = ed25519_dalek_fiat::SecretKey::from_bytes(secret).unwrap();
    ed25519_dalek_fiat::PublicKey::from(&sk).to_bytes()
}

/// `ed25519_dalek_fiat::Keypair::from_bytes(keypair)` then `try_sign(msg)`
/// (which always succeeds). Claimed: the outcome is `ed25519_sign` of the
/// two byte strings; and for a consistent keypair, signing succeeds (the
/// secret half takes any bytes, and a derived public key always
/// decompresses) and the signature verifies under the public half (the
/// signature is `s = k·a + r` with `A = a·B`, which is what `verify` checks).
#[verifier::external_body]
pub fn sign_bytes(keypair: &[u8; 64], msg: &[u8]) -> (sig: Option<[u8; 64]>)
    ensures
        match sig {
            Some(s) => ed25519_sign(keypair@, msg@) == Some(s@),
            None => ed25519_sign(keypair@, msg@) is None,
        },
        keypair_consistent(keypair@) ==> sig is Some,
        keypair_consistent(keypair@) ==> (sig matches Some(s) ==> ed25519_verifies(
            keypair@.subrange(32, 64),
            msg@,
            s@,
        )),
{
    let pair = match ed25519_dalek_fiat::Keypair::from_bytes(keypair) {
        Ok(p) => p,
        Err(_) => return None,
    };
    match pair.try_sign(msg) {
        Ok(s) => Some(s.to_bytes()),
        Err(_) => None,
    }
}

/// The lower-case hex SHA-256 digest of a byte string (`sha256::digest`).
pub uninterp spec fn sha256_hex(data: Seq<u8>) -> Seq<char>;

/// `sha256::digest(data)`: claimed to be `sha256_hex` of the bytes.
#[verifier::external_body]
pub fn sha256_digest_hex(data: &[u8]) -> (s: String)
    ensures
        s@ == sha256_hex(data@),
{
    sha256::digest(data)
}

/// `bincode::serialize` of a `[u8; 20]`: serde writes an array as a tuple of
/// its elements, and bincode writes a tuple as its elements in order and a
/// `u8` as that byte, so the encoding is the array itself.
#[verifier::external_body]
pub fn bincode_hash(h: &[u8; 20]) -> (v: Vec<u8>)
    ensures
        v@ == h@,
{
    bincode::serialize(h).unwrap()
}

} // verus!
