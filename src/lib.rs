//! A 128-bit, lexicographically sortable identifier (ULID): its text and
//! binary codecs, its conversions to and from UUID bytes and millisecond
//! timestamps, and a monotonic generator over one shared cell.
use vstd::prelude::*;

pub mod digits;
pub mod text;
pub mod codec;
pub mod fields;
pub mod generator;
mod outside;

verus! {

/// Milliseconds since the Unix epoch fill the 48 most significant bits; the
/// 80 bits below them are the randomness payload.
#[allow(non_camel_case_types)]
#[derive(PartialEq, Eq, Structural, Clone, Copy, Debug, Hash, PartialOrd, Ord)]
pub struct ulid(pub u128);

/// The ways in which building or decoding an identifier can fail.
#[derive(PartialEq, Eq, Structural, Clone, Copy, Debug)]
pub enum UlidError {
    /// Text whose length is not 26 characters.
    InvalidLength,
    /// Text holding a character outside the base-32 alphabet.
    InvalidCharacter,
    /// A timestamp that does not fit in 48 bits.
    TimestampOutOfRange,
    /// An increment of a randomness payload that is already at its maximum.
    RandomnessOverflow,
}

/// The largest timestamp in milliseconds that an identifier can hold.
pub const MAX_TIMESTAMP_MS: u64 = 0xffff_ffff_ffff;

/// 2^80: the randomness payload is a value below it.
pub open spec fn random_span() -> int {
    0x1_0000_0000_0000_0000_0000
}

/// 2^48: a timestamp is a value below it.
pub open spec fn timestamp_span() -> int {
    0x1_0000_0000_0000
}

/// 2^128: every identifier is a value below it.
pub open spec fn id_span() -> int {
    u128::MAX as int + 1
}

/// The timestamp field of an identifier value.
pub open spec fn timestamp_of(v: u128) -> int {
    v as int / random_span()
}

/// The randomness field of an identifier value.
pub open spec fn randomness_of(v: u128) -> int {
    v as int % random_span()
}

/// The identifier value with the given fields.
pub open spec fn pack(timestamp: int, randomness: int) -> int {
    timestamp * random_span() + randomness
}

} // verus!
