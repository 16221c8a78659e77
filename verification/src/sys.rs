//! Wrappers around the wall clock, the random source and the content hash.
//!
//! Each wrapper makes one outside call; its contract states only what the
//! callee's documentation promises, and the library's proofs rest on nothing
//! more.  Nothing is claimed of the clock or the random source beyond the
//! range of the value handed back.

use vstd::prelude::*;

use sha2::Digest;

use crate::tstamp::TimeUnit;

verus! {

/// Relies on `std::time::SystemTime::now` and `duration_since(UNIX_EPOCH)`:
/// the elapsed time since the Unix epoch, taken as zero if the clock reads
/// before the epoch.  Nothing more is assumed of the clock: callers handle
/// every non-negative reading.
#[verifier::external_body]
pub(crate) fn wall_clock_tick(unit: TimeUnit) -> (r: i64)
    ensures
        r >= 0,
{
    let d = std::time::SystemTime::now()
        .duration_since(std::time::UNIX_EPOCH)
        .unwrap_or(std::time::Duration::ZERO);
    match unit {
        TimeUnit::Sec => i64::try_from(d.as_secs()).unwrap_or(i64::MAX),
        TimeUnit::Ms => i64::try_from(d.as_millis()).unwrap_or(i64::MAX),
    }
}

/// Relies on `rand::random_range`: a value drawn from the given range, here
/// one of the sixteen hexadecimal digit indices.  Which one comes back is
/// not assumed anywhere.
#[verifier::external_body]
pub(crate) fn random_hex_index() -> (r: u64)
    ensures
        r < 16,
{
    rand::random_range(0..16u64)
}

/// The SHA-256 digest of a byte sequence.  The function is named and left
/// uninterpreted: the digest depends on the input bytes alone, and no
/// contract of this library says what it is on any given input.
pub uninterp spec fn sha256_of(data: Seq<u8>) -> Seq<u8>;

/// Relies on `sha2::Sha256::digest`: the SHA-256 digest of the input, a
/// function of the input bytes alone, 32 bytes long.
#[verifier::external_body]
pub(crate) fn sha256(data: &[u8]) -> (r: Vec<u8>)
    ensures
        r@ == sha256_of(data@),
        r@.len() == 32,
{
    sha2::Sha256::digest(data).to_vec()
}

/// Relies on `String::push`: appends exactly the one character.
#[verifier::external_body]
pub(crate) fn push_char(s: &mut String, c: char)
    ensures
        final(s)@ == old(s)@.push(c),
{
    s.push(c);
}

/// Relies on `String::into_bytes`: the UTF-8 encoding of the string's
/// characters.
#[verifier::external_body]
pub(crate) fn string_into_bytes(s: String) -> (r: Vec<u8>)
    ensures
        r@ == vstd::utf8::encode_utf8(s@),
{
    s.into_bytes()
}

/// Relies on `std::str::from_utf8`: succeeds exactly on valid UTF-8 and
/// yields the string decoding those bytes.
#[verifier::external_body]
pub(crate) fn bytes_to_str(v: &[u8]) -> (r: Option<&str>)
    ensures
        r matches Some(s) ==> vstd::utf8::valid_utf8(v@) && s@ == vstd::utf8::decode_utf8(v@),
        r is None ==> !vstd::utf8::valid_utf8(v@),
{
    std::str::from_utf8(v).ok()
}

/// Relies on `char::from_u32`: the scalar value with the given code point,
/// defined for every code point outside the surrogate range.
#[verifier::external_body]
pub(crate) fn char_from_code(v: u32) -> (c: char)
    requires
        v < 0xD800 || (0xE000 <= v && v <= 0x10FFFF),
    ensures
        c == v as char,
{
    char::from_u32(v).unwrap()
}

} // verus!
