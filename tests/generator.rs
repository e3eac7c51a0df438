use pgx_ulid::generator::{gen_monotonic_ulid, gen_ulid, next_monotonic};
use pgx_ulid::{ulid, UlidError};

const NOW: u64 = 1678449649111;

#[test]
fn test_generate() {
    let a = gen_ulid(NOW).unwrap();
    assert!(!a.is_nil());
    assert_eq!(a.timestamp_ms(), NOW);
    assert!(a.random() < (1u128 << 80));
}

#[test]
fn fresh_generation_rejects_clock_beyond_48_bits() {
    assert_eq!(gen_ulid(1 << 48), Err(UlidError::TimestampOutOfRange));
}

#[test]
fn nil_cell_at_clock_zero_with_zero_draw_stays_nil() {
    assert_eq!(next_monotonic(ulid::nil(), 0, 0), Ok(ulid::nil()));
}

#[test]
fn monotonic_sequence_with_constant_clock() {
    let mut cell = ulid::nil();
    let first = gen_monotonic_ulid(&mut cell, NOW).unwrap();
    assert_eq!(first.timestamp_ms(), NOW);
    assert_eq!(cell, first);
    let mut prev = first;
    for _ in 0..1000 {
        let next = gen_monotonic_ulid(&mut cell, NOW).unwrap();
        assert!(next > prev);
        assert_eq!(next.timestamp_ms(), NOW);
        assert_eq!(next.random(), prev.random() + 1);
        assert_eq!(cell, next);
        prev = next;
    }
}

#[test]
fn clock_going_back_keeps_incrementing() {
    let start = ulid::from_parts(NOW, 41).unwrap();
    let mut cell = start;
    let a = gen_monotonic_ulid(&mut cell, NOW - 500).unwrap();
    assert_eq!(a, ulid(start.0 + 1));
    assert_eq!(a.timestamp_ms(), NOW);
}

#[test]
fn millisecond_rollover_draws_fresh_randomness() {
    let start = ulid::from_parts(NOW, 41).unwrap();
    assert_eq!(
        next_monotonic(start, NOW + 1, 9),
        Ok(ulid::from_parts(NOW + 1, 9).unwrap())
    );
    let mut cell = start;
    let a = gen_monotonic_ulid(&mut cell, NOW + 1).unwrap();
    assert_eq!(a.timestamp_ms(), NOW + 1);
    assert!(a > start);
    assert_eq!(cell, a);
}

#[test]
fn nil_cell_starts_fresh() {
    assert_eq!(next_monotonic(ulid::nil(), 0, 5), Ok(ulid(5)));
    assert_eq!(next_monotonic(ulid::nil(), NOW, 5), Ok(ulid::from_parts(NOW, 5).unwrap()));
}

#[test]
fn same_millisecond_steps_by_one() {
    let start = ulid::from_parts(NOW, 41).unwrap();
    assert_eq!(next_monotonic(start, NOW, 9), Ok(ulid(start.0 + 1)));
    assert_eq!(next_monotonic(start, NOW - 1, 9), Ok(ulid(start.0 + 1)));
}

#[test]
fn exhausted_millisecond_fails_and_keeps_cell() {
    let full = ulid::from_parts(NOW, (1u128 << 80) - 1).unwrap();
    assert_eq!(next_monotonic(full, NOW, 0), Err(UlidError::RandomnessOverflow));
    let mut cell = full;
    assert_eq!(gen_monotonic_ulid(&mut cell, NOW), Err(UlidError::RandomnessOverflow));
    assert_eq!(cell, full);
}

#[test]
fn clock_beyond_48_bits_fails() {
    let mut cell = ulid::nil();
    assert_eq!(gen_monotonic_ulid(&mut cell, 1 << 48), Err(UlidError::TimestampOutOfRange));
    assert_eq!(cell, ulid::nil());
}
