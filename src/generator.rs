//! Generation: fresh identifiers, and the monotonic generator that steps one
//! shared cell so that identifiers issued within a millisecond keep rising.
use crate::fields::{increment_result, parts_result};
use crate::outside::new_ulid_value;
use crate::{random_span, randomness_of, timestamp_of, timestamp_span, ulid, UlidError};
use vstd::prelude::*;

verus! {

/// One step of the monotonic generator from the stored value `last`, the clock
/// reading `now_ms` and a freshly drawn payload `random`. A nil cell or a clock
/// past the stored timestamp opens a new millisecond with the fresh payload;
/// otherwise (the same millisecond, or a clock that went back) the stored
/// value is stepped by one.
pub open spec fn monotonic_next(last: u128, now_ms: int, random: int) -> Result<ulid, UlidError> {
    if last == 0 || now_ms > timestamp_of(last) {
        parts_result(now_ms, random)
    } else {
        increment_result(last)
    }
}

/// The cell after the first `k` of a row of calls at clock reading `now_ms`,
/// starting from `last`, where call `i` is given `draws[i]` as its fresh
/// payload. A call that fails leaves the cell as it was.
pub open spec fn cell_after(last: u128, now_ms: int, draws: Seq<int>, k: nat) -> u128
    decreases k,
{
    if k == 0 {
        last
    } else {
        let c = cell_after(last, now_ms, draws, (k - 1) as nat);
        match monotonic_next(c, now_ms, draws[k - 1]) {
            Ok(u) => u.0,
            Err(_) => c,
        }
    }
}

/// What call `k` of such a row returns.
pub open spec fn call_result(last: u128, now_ms: int, draws: Seq<int>, k: nat) -> Result<
    ulid,
    UlidError,
> {
    monotonic_next(cell_after(last, now_ms, draws, k), now_ms, draws[k as int])
}

/// The step of the monotonic generator, for a given clock reading and payload.
pub fn next_monotonic(last: ulid, now_ms: u64, random: u128) -> (r: Result<ulid, UlidError>)
    ensures
        r == monotonic_next(last.0, now_ms as int, random as int),
{
    if last.is_nil() || now_ms > last.timestamp_ms() {
        ulid::from_parts(now_ms, random)
    } else {
        last.increment()
    }
}

/// Issues the next identifier from the shared cell `shared` at clock reading
/// `now_ms`, drawing a fresh payload when a new millisecond opens. The caller
/// holds exclusive access to the cell for the whole call. On success the cell
/// holds the identifier returned; on failure it is left as it was.
pub fn gen_monotonic_ulid(shared: &mut ulid, now_ms: u64) -> (r: Result<ulid, UlidError>)
    ensures
        exists|x: int|
            0 <= x < random_span() && r == monotonic_next(old(shared).0, now_ms as int, x),
        r matches Ok(u) ==> *final(shared) == u,
        r is Err ==> *final(shared) == *old(shared),
{
    let last = *shared;
    let random: u128 = if last.is_nil() || now_ms > last.timestamp_ms() {
        ulid(new_ulid_value()).random()
    } else {
        0
    };
    let r = next_monotonic(last, now_ms, random);
    if let Ok(u) = r {
        *shared = u;
    }
    assert(r == monotonic_next(last.0, now_ms as int, random as int));
    r
}

/// A fresh identifier at clock reading `now_ms`, with a freshly drawn
/// payload and no shared state.
pub fn gen_ulid(now_ms: u64) -> (r: Result<ulid, UlidError>)
    ensures
        exists|x: int| 0 <= x < random_span() && r == parts_result(now_ms as int, x),
{
    let random = ulid(new_ulid_value()).random();
    let r = ulid::from_parts(now_ms, random);
    assert(r == parts_result(now_ms as int, random as int));
    r
}

/// The monotonic generator never moves backwards: a value it issues is at
/// least the stored one, and above it unless both are nil.
pub proof fn lemma_never_backwards(last: ulid, now_ms: u64, random: u128)
    ensures
        monotonic_next(last.0, now_ms as int, random as int) matches Ok(u) ==> u.0 >= last.0 && (
        last.0 != 0 ==> u.0 > last.0),
{
    if last.0 != 0 && now_ms > timestamp_of(last.0) && (now_ms as int) < timestamp_span() {
        let t = timestamp_of(last.0);
        assert(last.0 < (t + 1) * random_span());
        assert((t + 1) * random_span() <= now_ms * random_span()) by (nonlinear_arith)
            requires
                t + 1 <= now_ms,
        ;
    }
}

/// With the clock held at `now_ms` and the cell nil or not ahead of it, a
/// call that succeeds gives a value stamped `now_ms`, and from a cell already
/// stamped `now_ms` it gives the cell plus one.
pub proof fn lemma_held_clock_step(c: u128, now_ms: u64, x: int)
    requires
        now_ms < timestamp_span(),
        0 <= x < random_span(),
        c == 0 || timestamp_of(c) <= now_ms,
    ensures
        monotonic_next(c, now_ms as int, x) matches Ok(u) ==> timestamp_of(u.0) == now_ms && (c
            != 0 && timestamp_of(c) == now_ms ==> u.0 == c + 1),
{
    if c == 0 || now_ms > timestamp_of(c) {
        vstd::arithmetic::div_mod::lemma_small_mod(x as nat, random_span() as nat);
        vstd::arithmetic::div_mod::lemma_fundamental_div_mod_converse(
            now_ms * random_span() + x,
            random_span(),
            now_ms as int,
            x,
        );
    } else if randomness_of(c) != random_span() - 1 {
        let t = timestamp_of(c);
        vstd::arithmetic::div_mod::lemma_fundamental_div_mod(c as int, random_span());
        vstd::arithmetic::div_mod::lemma_fundamental_div_mod_converse(
            c + 1,
            random_span(),
            t,
            randomness_of(c) + 1,
        );
    }
}

/// Calls in a row with the clock held at `now_ms`, starting from a cell that
/// is nil or not ahead of the clock: when none of them fails and the first
/// does not give the nil value, call `k` gives the first value plus `k`. So
/// the values rise strictly, all carry the timestamp `now_ms`, and the
/// randomness rises by one from each call to the next.
pub proof fn lemma_held_clock_run(last: u128, now_ms: u64, draws: Seq<int>)
    requires
        now_ms < timestamp_span(),
        last == 0 || timestamp_of(last) <= now_ms,
        forall|i: int| 0 <= i < draws.len() ==> 0 <= #[trigger] draws[i] < random_span(),
        forall|k: nat| k < draws.len() ==> #[trigger] call_result(last, now_ms as int, draws, k) is Ok,
        draws.len() > 0 ==> cell_after(last, now_ms as int, draws, 1) != 0,
    ensures
        forall|k: nat|
            k < draws.len() ==> {
                let first = cell_after(last, now_ms as int, draws, 1);
                &&& #[trigger] call_result(last, now_ms as int, draws, k) == Ok::<ulid, UlidError>(
                    ulid((first + k) as u128),
                )
                &&& timestamp_of((first + k) as u128) == now_ms
                &&& randomness_of((first + k) as u128) == randomness_of(first) + k
            },
{
    let now = now_ms as int;
    if draws.len() > 0 {
        let first = cell_after(last, now, draws, 1);
        assert(call_result(last, now, draws, 0) is Ok);
        lemma_held_clock_step(last, now_ms, draws[0]);
        assert(first == call_result(last, now, draws, 0)->Ok_0.0);
        vstd::arithmetic::div_mod::lemma_fundamental_div_mod(first as int, random_span());
        assert forall|k: nat| k < draws.len() implies {
            &&& #[trigger] call_result(last, now, draws, k) == Ok::<ulid, UlidError>(
                ulid((first + k) as u128),
            )
            &&& timestamp_of((first + k) as u128) == now_ms
            &&& randomness_of((first + k) as u128) == randomness_of(first) + k
        } by {
            lemma_run_prefix(last, now_ms, draws, k);
            assert(call_result(last, now, draws, k) is Ok);
        }
    }
}

/// The cell after `k + 1` calls of a held-clock row is the first value plus `k`.
proof fn lemma_run_prefix(last: u128, now_ms: u64, draws: Seq<int>, k: nat)
    requires
        now_ms < timestamp_span(),
        last == 0 || timestamp_of(last) <= now_ms,
        forall|i: int| 0 <= i < draws.len() ==> 0 <= #[trigger] draws[i] < random_span(),
        forall|j: nat| j < draws.len() ==> #[trigger] call_result(last, now_ms as int, draws, j) is Ok,
        cell_after(last, now_ms as int, draws, 1) != 0,
        k < draws.len(),
    ensures
        cell_after(last, now_ms as int, draws, k + 1) == cell_after(last, now_ms as int, draws, 1)
            + k,
        timestamp_of(cell_after(last, now_ms as int, draws, k + 1)) == now_ms,
        randomness_of(cell_after(last, now_ms as int, draws, k + 1)) == randomness_of(
            cell_after(last, now_ms as int, draws, 1),
        ) + k,
    decreases k,
{
    let now = now_ms as int;
    let first = cell_after(last, now, draws, 1);
    assert(call_result(last, now, draws, 0) is Ok);
    lemma_held_clock_step(last, now_ms, draws[0]);
    vstd::arithmetic::div_mod::lemma_fundamental_div_mod(first as int, random_span());
    if k > 0 {
        let km = (k - 1) as nat;
        lemma_run_prefix(last, now_ms, draws, km);
        let c = cell_after(last, now, draws, k);
        assert(c == cell_after(last, now, draws, km + 1));
        assert(call_result(last, now, draws, k) is Ok);
        lemma_held_clock_step(c, now_ms, draws[k as int]);
        vstd::arithmetic::div_mod::lemma_fundamental_div_mod(c as int, random_span());
        vstd::arithmetic::div_mod::lemma_fundamental_div_mod_converse(
            c + 1,
            random_span(),
            now as int,
            randomness_of(first) + k,
        );
    }
}

/// Once the cell is nil or the clock has passed the stored timestamp, the
/// next value carries the clock reading as its timestamp and the fresh payload
/// as its randomness, whatever the stored randomness was.
pub proof fn lemma_rollover(last: ulid, now_ms: u64, random: u128)
    requires
        last.0 == 0 || now_ms > timestamp_of(last.0),
        now_ms < timestamp_span(),
        random < random_span(),
    ensures
        monotonic_next(last.0, now_ms as int, random as int) matches Ok(u) && timestamp_of(u.0)
            == now_ms && randomness_of(u.0) == random,
{
    vstd::arithmetic::div_mod::lemma_small_mod(random as nat, random_span() as nat);
    vstd::arithmetic::div_mod::lemma_fundamental_div_mod_converse(
        now_ms * random_span() + random,
        random_span(),
        now_ms as int,
        random as int,
    );
}

} // verus!
