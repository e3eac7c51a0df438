use pgx_ulid::codec::{ulid_from_uuid, ulid_to_bytea, ulid_to_uuid};
use pgx_ulid::fields::{timestamp_to_ulid, ulid_to_timestamp};
use pgx_ulid::{ulid, UlidError};

const INT: u128 = 2029121117734015635515926905565997019;
const TEXT: &str = "01GV5PA9EQG7D82Q3Y4PKBZSYV";
const UUID: &str = "0186cb65-25d7-81da-815c-7e25a6bfe7db";
const BYTEA: &[u8] = &[
    1, 134, 203, 101, 37, 215, 129, 218, 129, 92, 126, 37, 166, 191, 231, 219,
];
const TIMESTAMP_MS: u64 = 1678449649111;

fn uuid_text(b: &[u8; 16]) -> String {
    let mut s = String::new();
    for (i, x) in b.iter().enumerate() {
        if i == 4 || i == 6 || i == 8 || i == 10 {
            s.push('-');
        }
        s.push_str(&format!("{:02x}", x));
    }
    s
}

fn uuid_from_text(s: &str) -> [u8; 16] {
    let hex: String = s.chars().filter(|c| *c != '-').collect();
    let mut out = [0u8; 16];
    for i in 0..16 {
        out[i] = u8::from_str_radix(&hex[2 * i..2 * i + 2], 16).unwrap();
    }
    out
}

#[test]
fn test_string_to_ulid() {
    assert_eq!(ulid::input(TEXT), Ok(ulid(INT)));
}

#[test]
fn test_ulid_to_string() {
    assert_eq!(ulid(INT).output(), TEXT);
}

#[test]
fn test_string_to_ulid_lowercase() {
    assert_eq!(ulid::input(&TEXT.to_lowercase()), Ok(ulid(INT)));
}

#[test]
fn test_string_to_ulid_mixed_case() {
    assert_eq!(ulid::input("01gV5Pa9eQG7d82q3Y4pKbZsYv"), Ok(ulid(INT)));
}

#[test]
fn test_string_to_ulid_invalid_length() {
    assert_eq!(ulid::input("01GV5PA9EQG7D82Q3Y4PKBZSY"), Err(UlidError::InvalidLength));
}

#[test]
fn test_string_to_ulid_invalid_char() {
    assert_eq!(ulid::input("01GV5PA9EQG7D82Q3Y4PKBZSYU"), Err(UlidError::InvalidCharacter));
}

#[test]
fn empty_text_is_invalid_length() {
    assert_eq!(ulid::input(""), Err(UlidError::InvalidLength));
}

#[test]
fn excluded_letters_are_invalid() {
    for c in ['I', 'L', 'O', 'U', 'i', 'l', 'o', 'u', '-', '_'] {
        let s = format!("01GV5PA9EQG7D82Q3Y4PKBZSY{}", c);
        assert_eq!(ulid::input(&s), Err(UlidError::InvalidCharacter), "{}", s);
    }
}

#[test]
fn non_ascii_counts_characters_not_bytes() {
    // 26 characters, 27 bytes
    assert_eq!(ulid::input("01GV5PA9EQG7D82Q3Y4PKBZSYé"), Err(UlidError::InvalidCharacter));
    // 25 characters, 26 bytes
    assert_eq!(ulid::input("01GV5PA9EQG7D82Q3Y4PKBZSé"), Err(UlidError::InvalidLength));
}

#[test]
fn extremes_round_trip() {
    assert_eq!(ulid(0).output(), "00000000000000000000000000");
    assert_eq!(ulid(u128::MAX).output(), "7ZZZZZZZZZZZZZZZZZZZZZZZZZ");
    assert_eq!(ulid::input("00000000000000000000000000"), Ok(ulid(0)));
    assert_eq!(ulid::input("7ZZZZZZZZZZZZZZZZZZZZZZZZZ"), Ok(ulid(u128::MAX)));
    assert_eq!(ulid::input("7zzzzzzzzzzzzzzzzzzzzzzzzz"), Ok(ulid(u128::MAX)));
}

#[test]
fn top_bits_beyond_128_are_dropped() {
    assert_eq!(ulid::input("80000000000000000000000000"), Ok(ulid(0)));
}

#[test]
fn text_round_trip_on_values() {
    for v in [0u128, 1, 31, 32, INT, u128::MAX - 1, 1 << 80, (1 << 127) + 12345] {
        let t = ulid(v).output();
        assert_eq!(t.len(), 26);
        assert_eq!(ulid::input(&t), Ok(ulid(v)));
    }
}

#[test]
fn test_ulid_to_timestamp() {
    assert_eq!(ulid_to_timestamp(ulid(INT)), TIMESTAMP_MS);
    assert_eq!(ulid(INT).timestamp_ms(), TIMESTAMP_MS);
}

#[test]
fn test_timestamp_to_ulid() {
    let u = timestamp_to_ulid(TIMESTAMP_MS).unwrap();
    assert_eq!(u.output(), "01GV5PA9EQ0000000000000000");
}

#[test]
fn test_timestamptz_to_ulid() {
    let u = timestamp_to_ulid(TIMESTAMP_MS).unwrap();
    assert_eq!(u.output(), "01GV5PA9EQ0000000000000000");
    assert_eq!(ulid_to_timestamp(u), TIMESTAMP_MS);
    assert_eq!(u.random(), 0);
}

#[test]
fn timestamp_out_of_range() {
    assert_eq!(timestamp_to_ulid(1 << 48), Err(UlidError::TimestampOutOfRange));
    assert_eq!(timestamp_to_ulid(u64::MAX), Err(UlidError::TimestampOutOfRange));
    assert_eq!(
        timestamp_to_ulid((1 << 48) - 1),
        Ok(ulid(((1u128 << 48) - 1) << 80))
    );
}

#[test]
fn from_parts_packs_fields() {
    assert_eq!(ulid::from_parts(1, 2), Ok(ulid((1u128 << 80) + 2)));
    let u = ulid::from_parts(TIMESTAMP_MS, 0xabcdef).unwrap();
    assert_eq!(u.timestamp_ms(), TIMESTAMP_MS);
    assert_eq!(u.random(), 0xabcdef);
    // randomness beyond 80 bits is reduced to its low 80 bits
    assert_eq!(ulid::from_parts(3, (1u128 << 80) + 7), Ok(ulid((3u128 << 80) + 7)));
}

#[test]
fn test_ulid_to_uuid() {
    let b = ulid_to_uuid(ulid(INT));
    assert_eq!(uuid_text(&b), UUID);
}

#[test]
fn test_ulid_to_bytea() {
    assert_eq!(ulid_to_bytea(ulid(INT)), BYTEA.to_vec());
}

#[test]
fn test_uuid_to_ulid() {
    assert_eq!(ulid_from_uuid(uuid_from_text(UUID)), ulid(INT));
}

#[test]
fn uuid_round_trip_on_values() {
    for v in [0u128, 1, 255, 256, INT, u128::MAX] {
        assert_eq!(ulid_from_uuid(ulid_to_uuid(ulid(v))), ulid(v));
    }
    let mut b = [0u8; 16];
    b[15] = 1;
    assert_eq!(ulid_to_uuid(ulid(1)), b);
}

#[test]
fn orders_agree() {
    let vals = [0u128, 1, 31, 32, 255, 256, INT, INT + 1, 1 << 100, u128::MAX - 1, u128::MAX];
    for &a in vals.iter() {
        for &b in vals.iter() {
            let num = a < b;
            let bytes = ulid_to_bytea(ulid(a)) < ulid_to_bytea(ulid(b));
            let text = ulid(a).output() < ulid(b).output();
            assert_eq!(num, bytes, "{} {}", a, b);
            assert_eq!(num, text, "{} {}", a, b);
        }
    }
}

#[test]
fn increment_steps_randomness() {
    assert_eq!(ulid(5).increment(), Ok(ulid(6)));
    let max_random = (7u128 << 80) | ((1u128 << 80) - 1);
    assert_eq!(ulid(max_random).increment(), Err(UlidError::RandomnessOverflow));
    assert_eq!(ulid(u128::MAX).increment(), Err(UlidError::RandomnessOverflow));
}

#[test]
fn nil_value() {
    assert!(ulid::nil().is_nil());
    assert!(!ulid(1).is_nil());
}

#[test]
fn surrounding_white_space_is_ignored() {
    assert_eq!(ulid::input("  01GV5PA9EQG7D82Q3Y4PKBZSYV  "), Ok(ulid(INT)));
    assert_eq!(ulid::input("\t01gv5pa9eqg7d82q3y4pkbzsyv\n"), Ok(ulid(INT)));
    assert_eq!(ulid::input("\u{3000}01GV5PA9EQG7D82Q3Y4PKBZSYV\u{a0}"), Ok(ulid(INT)));
    assert_eq!(ulid::input(" 01GV5PA9EQG7D82Q3Y4PKBZSY "), Err(UlidError::InvalidLength));
    assert_eq!(ulid::input("01GV5PA9EQG7 82Q3Y4PKBZSYV"), Err(UlidError::InvalidCharacter));
    assert_eq!(ulid::input("   "), Err(UlidError::InvalidLength));
}
