//! The two fields of an identifier: building one from a timestamp and a
//! randomness payload, reading them back, and stepping the payload.
use crate::outside::{ulid_from_parts, ulid_increment};
use crate::{
    id_span, pack, random_span, randomness_of, timestamp_of, timestamp_span, ulid, UlidError,
    MAX_TIMESTAMP_MS,
};
use vstd::arithmetic::div_mod::{lemma_div_by_multiple_is_strongly_ordered, lemma_div_pos_is_pos};
use vstd::prelude::*;

verus! {

/// What building from parts gives: a timestamp beyond 48 bits is refused, and
/// the randomness is taken modulo 2^80.
pub open spec fn parts_result(timestamp_ms: int, random: int) -> Result<ulid, UlidError> {
    if timestamp_ms >= timestamp_span() {
        Err(UlidError::TimestampOutOfRange)
    } else {
        Ok(ulid(pack(timestamp_ms, random % random_span()) as u128))
    }
}

/// What stepping gives: one more, unless the randomness is at its maximum.
pub open spec fn increment_result(v: u128) -> Result<ulid, UlidError> {
    if randomness_of(v) == random_span() - 1 {
        Err(UlidError::RandomnessOverflow)
    } else {
        Ok(ulid((v + 1) as u128))
    }
}

impl ulid {
    /// The nil identifier: all bits zero.
    pub fn nil() -> (r: ulid)
        ensures
            r.0 == 0,
    {
        ulid(0)
    }

    pub fn is_nil(&self) -> (r: bool)
        ensures
            r == (self.0 == 0),
    {
        self.0 == 0
    }

    /// Milliseconds since the Unix epoch: the 48 most significant bits.
    pub fn timestamp_ms(&self) -> (r: u64)
        ensures
            r as int == timestamp_of(self.0),
            r <= MAX_TIMESTAMP_MS,
    {
        proof {
            lemma_div_pos_is_pos(self.0 as int, random_span());
            if self.0 as int / random_span() >= timestamp_span() {
                lemma_div_by_multiple_is_strongly_ordered(
                    self.0 as int,
                    id_span(),
                    timestamp_span(),
                    random_span(),
                );
                assert(id_span() / random_span() == timestamp_span());
            }
        }
        (self.0 / 0x1_0000_0000_0000_0000_0000) as u64
    }

    /// The randomness payload: the 80 least significant bits.
    pub fn random(&self) -> (r: u128)
        ensures
            r as int == randomness_of(self.0),
            r < random_span(),
    {
        self.0 % 0x1_0000_0000_0000_0000_0000
    }

    /// The identifier with the given timestamp and randomness; the randomness
    /// is reduced to its 80 least significant bits.
    pub fn from_parts(timestamp_ms: u64, random: u128) -> (r: Result<ulid, UlidError>)
        ensures
            r == parts_result(timestamp_ms as int, random as int),
    {
        if timestamp_ms > MAX_TIMESTAMP_MS {
            Err(UlidError::TimestampOutOfRange)
        } else {
            let v = ulid_from_parts(timestamp_ms, random);
            proof {
                vstd::arithmetic::div_mod::lemma_small_mod(
                    timestamp_ms as nat,
                    timestamp_span() as nat,
                );
            }
            Ok(ulid(v))
        }
    }

    /// The next identifier in the same millisecond: the randomness plus one.
    pub fn increment(&self) -> (r: Result<ulid, UlidError>)
        ensures
            r == increment_result(self.0),
    {
        match ulid_increment(self.0) {
            Some(v) => Ok(ulid(v)),
            None => Err(UlidError::RandomnessOverflow),
        }
    }
}

/// The timestamp of an identifier, in milliseconds since the Unix epoch.
pub fn ulid_to_timestamp(input: ulid) -> (r: u64)
    ensures
        r as int == timestamp_of(input.0),
{
    input.timestamp_ms()
}

/// The identifier of a timestamp in milliseconds, with zero randomness.
pub fn timestamp_to_ulid(timestamp_ms: u64) -> (r: Result<ulid, UlidError>)
    ensures
        r == parts_result(timestamp_ms as int, 0),
{
    ulid::from_parts(timestamp_ms, 0)
}

} // verus!
