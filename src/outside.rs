//! The calls into the `ulid` crate, each with what its source shows of it.
use crate::text::{parse_text, text_of, trimmed};
use crate::{random_span, timestamp_span, ulid, UlidError};
use vstd::prelude::*;

verus! {

/// Relies on `ulid::Ulid::from_string`: on ASCII text, a length other than 26
/// bytes is `DecodeError::InvalidLength`; a byte outside the alphabet in either
/// case is `DecodeError::InvalidChar`; otherwise each symbol shifts five bits
/// into a `u128`, so the bits above 128 are dropped. Each of the two errors is
/// handed on as the error of this library that names it.
#[verifier::external_body]
pub(crate) fn decode_base32(s: &str) -> (r: Result<ulid, UlidError>)
    requires
        s.is_ascii(),
    ensures
        r == parse_text(s@),
{
    match ::ulid::Ulid::from_string(s) {
        Ok(u) => Ok(ulid(u.0)),
        Err(::ulid::DecodeError::InvalidLength) => Err(UlidError::InvalidLength),
        Err(::ulid::DecodeError::InvalidChar) => Err(UlidError::InvalidCharacter),
    }
}

/// Relies on `str::trim`: the text without leading and trailing white space,
/// as the Unicode property White_Space defines it.
#[verifier::external_body]
pub(crate) fn trim(s: &str) -> (r: &str)
    ensures
        r@ == trimmed(s@),
{
    s.trim()
}

/// Relies on `ulid::Ulid::to_string`: 26 symbols, the five least significant
/// bits of the value giving the last one.
#[verifier::external_body]
pub(crate) fn encode_base32(v: u128) -> (r: String)
    ensures
        r@ == text_of(v),
{
    ::ulid::Ulid(v).to_string()
}

/// Relies on `ulid::Ulid::from_parts`: the timestamp masked to 48 bits above
/// the randomness masked to 80 bits.
#[verifier::external_body]
pub(crate) fn ulid_from_parts(timestamp_ms: u64, random: u128) -> (r: u128)
    ensures
        r as int == (timestamp_ms as int % timestamp_span()) * random_span() + random as int
            % random_span(),
{
    ::ulid::Ulid::from_parts(timestamp_ms, random).0
}

/// Relies on `ulid::Ulid::increment`: `None` when the 80 low bits are all set,
/// else the value plus one.
#[verifier::external_body]
pub(crate) fn ulid_increment(v: u128) -> (r: Option<u128>)
    ensures
        v as int % random_span() == random_span() - 1 ==> r is None,
        v as int % random_span() != random_span() - 1 ==> r == Some((v + 1) as u128),
{
    ::ulid::Ulid(v).increment().map(|u| u.0)
}

/// Relies on `ulid::Ulid::new`: a value drawn from the clock and a random
/// source, so nothing is known of it.
#[verifier::external_body]
pub(crate) fn new_ulid_value() -> (r: u128) {
    ::ulid::Ulid::new().0
}

} // verus!
