//! Conversions of an identifier to and from its text and its 16 big-endian
//! bytes, which are also the bytes of its UUID form.
use crate::digits::{
    digits, digits_value, lemma_digits_bounded, lemma_digits_len, lemma_digits_order,
    lemma_digits_round_trip, lemma_digits_value_bounded, lex_lt,
};
use crate::outside::{decode_base32, encode_base32, trim};
use crate::text::{
    all_base32, alphabet, base32_digit, decode_text, is_white_space, lemma_alphabet,
    lemma_alphabet_keeps_order, text_lt, text_of, text_value, trimmed,
};
use crate::{id_span, ulid, UlidError};
use vstd::arithmetic::div_mod::lemma_small_mod;
use vstd::arithmetic::power::{lemma_pow_increases, pow};
use vstd::prelude::*;
use vstd::string::StrSliceExecFns;

verus! {

/// The canonical binary form: 16 bytes, most significant first.
pub open spec fn bytes_of(v: u128) -> Seq<u8> {
    digits(v as int, 256, 16).map(|i: int, d: int| d as u8)
}

/// The value whose canonical bytes are `b`. The UUID form of an identifier is
/// its canonical bytes: in memory the value is held least significant byte
/// first, and that order is reversed on the way to and from a UUID.
pub open spec fn bytes_value(b: Seq<u8>) -> int {
    digits_value(b.map(|i: int, x: u8| x as int), 256)
}

/// 256^16 is 2^128, and 2^128 is at most 32^26.
pub proof fn lemma_spans()
    ensures
        pow(256, 16) == id_span(),
        id_span() <= pow(32, 26),
{
    reveal_with_fuel(pow, 17);
    assert(pow(256, 16) == id_span());
    reveal_with_fuel(pow, 27);
    assert(id_span() <= pow(32, 26));
}

impl ulid {
    /// Decodes the 26-character text form, in either case, ignoring
    /// surrounding white space.
    pub fn input(text: &str) -> (r: Result<ulid, UlidError>)
        ensures
            r == decode_text(text@),
    {
        let s = trim(text);
        if s.is_ascii() {
            decode_base32(s)
        } else {
            proof {
                let i = choose|i: int| 0 <= i < s@.len() && !('\0' <= #[trigger] s@[i] <= '\u{7f}');
                assert(!crate::text::is_base32_char(s@[i]));
                assert(!all_base32(s@));
            }
            if s.unicode_len() != 26 {
                Err(UlidError::InvalidLength)
            } else {
                Err(UlidError::InvalidCharacter)
            }
        }
    }

    /// The canonical 26-character text form, in uppercase.
    pub fn output(&self) -> (r: String)
        ensures
            r@ == text_of(self.0),
    {
        encode_base32(self.0)
    }
}

/// The identifier whose UUID form is `input`.
pub fn ulid_from_uuid(input: [u8; 16]) -> (r: ulid)
    ensures
        r.0 as int == bytes_value(input@),
{
    let ghost ds = input@.map(|i: int, x: u8| x as int);
    let mut acc: u128 = 0;
    let mut k: usize = 0;
    proof {
        lemma_spans();
        assert(ds.subrange(0, 0).len() == 0);
    }
    while k < 16
        invariant
            0 <= k <= 16,
            ds.len() == 16,
            ds == input@.map(|i: int, x: u8| x as int),
            acc as int == digits_value(ds.subrange(0, k as int), 256),
            pow(256, 16) == id_span(),
        decreases 16 - k,
    {
        let b = input[k];
        proof {
            let pre = ds.subrange(0, k as int);
            assert forall|i: int| 0 <= i < pre.len() implies 0 <= #[trigger] pre[i] < 256 by {
                assert(pre[i] == input@[i] as int);
            }
            lemma_digits_value_bounded(pre, 256);
            lemma_pow_increases(256, k as nat, 15);
            assert(ds.subrange(0, k + 1).drop_last() =~= pre);
            assert(ds[k as int] == b as int);
            assert(pow(256, 16) == 256 * pow(256, 15)) by {
                reveal(pow);
            }
            assert(acc * 256 + b < 256 * pow(256, 15)) by (nonlinear_arith)
                requires
                    acc < pow(256, k as nat),
                    pow(256, k as nat) <= pow(256, 15),
                    b < 256,
            ;
        }
        acc = acc * 256 + b as u128;
        k = k + 1;
    }
    assert(ds.subrange(0, 16) =~= ds);
    ulid(acc)
}

/// The 16 bytes of the UUID form of an identifier: its canonical bytes.
pub fn ulid_to_uuid(input: ulid) -> (r: [u8; 16])
    ensures
        r@ == bytes_of(input.0),
{
    let ghost all = digits(input.0 as int, 256, 16);
    let mut out: [u8; 16] = [0u8; 16];
    let mut x: u128 = input.0;
    let mut k: usize = 16;
    proof {
        lemma_digits_len(input.0 as int, 256, 16);
        assert(all.subrange(0, 16) =~= all);
    }
    while k > 0
        invariant
            0 <= k <= 16,
            out@.len() == 16,
            all == digits(input.0 as int, 256, 16),
            all.len() == 16,
            all.subrange(0, k as int) == digits(x as int, 256, k as nat),
            forall|j: int| k <= j < 16 ==> out@[j] as int == #[trigger] all[j],
        decreases k,
    {
        let ghost low = digits(x as int / 256, 256, (k - 1) as nat);
        proof {
            lemma_digits_len(x as int / 256, 256, (k - 1) as nat);
            assert(digits(x as int, 256, k as nat) == low.push(x as int % 256));
            assert(all[k - 1] == all.subrange(0, k as int)[k - 1]);
            assert(all.subrange(0, k - 1) =~= all.subrange(0, k as int).drop_last());
        }
        out[k - 1] = (x % 256) as u8;
        x = x / 256;
        k = k - 1;
    }
    proof {
        lemma_digits_bounded(input.0 as int, 256, 16);
        assert forall|j: int| 0 <= j < 16 implies out@[j] == #[trigger] bytes_of(input.0)[j] by {
            assert(0 <= all[j] < 256);
        }
        assert(out@ =~= bytes_of(input.0));
    }
    out
}

/// The canonical 16 bytes of an identifier, most significant first.
pub fn ulid_to_bytea(input: ulid) -> (r: Vec<u8>)
    ensures
        r@ == bytes_of(input.0),
{
    let be = ulid_to_uuid(input);
    let mut out: Vec<u8> = Vec::new();
    let mut i: usize = 0;
    proof {
        lemma_digits_len(input.0 as int, 256, 16);
    }
    while i < 16
        invariant
            0 <= i <= 16,
            be@ == bytes_of(input.0),
            bytes_of(input.0).len() == 16,
            out@ =~= bytes_of(input.0).subrange(0, i as int),
        decreases 16 - i,
    {
        out.push(be[i]);
        i = i + 1;
    }
    out
}

/// Byte order: lexicographic over byte values.
pub open spec fn bytes_lt(a: Seq<u8>, c: Seq<u8>) -> bool {
    lex_lt(a.map(|i: int, x: u8| x as int), c.map(|i: int, x: u8| x as int))
}

/// Decoding the text of any identifier gives that identifier back.
pub proof fn lemma_text_round_trip(v: ulid)
    ensures
        decode_text(text_of(v.0)) matches Ok(w) && w == v,
{
    let d = digits(v.0 as int, 32, 26);
    let t = text_of(v.0);
    lemma_digits_len(v.0 as int, 32, 26);
    lemma_digits_bounded(v.0 as int, 32, 26);
    lemma_alphabet();
    lemma_spans();
    assert(t.map(|i: int, c: char| base32_digit(c)) =~= d);
    assert forall|i: int| 0 <= i < t.len() implies crate::text::is_base32_char(#[trigger] t[i]) by {
        assert(base32_digit(t[i]) == d[i]);
    }
    lemma_digits_round_trip(v.0 as int, 32, 26);
    assert(text_value(t) == v.0);
    lemma_small_mod(v.0 as nat, id_span() as nat);
    assert(!is_white_space(t[0]) && !is_white_space(t.last()));
    assert(trimmed(t) == t);
}

/// Reading back the UUID form of any identifier gives that identifier.
pub proof fn lemma_uuid_round_trip(v: ulid)
    ensures
        bytes_value(bytes_of(v.0)) == v.0,
{
    let d = digits(v.0 as int, 256, 16);
    lemma_digits_len(v.0 as int, 256, 16);
    lemma_digits_bounded(v.0 as int, 256, 16);
    lemma_spans();
    assert(bytes_of(v.0).map(|i: int, x: u8| x as int) =~= d);
    lemma_digits_round_trip(v.0 as int, 256, 16);
}

/// Comparing two identifiers as numbers, as canonical bytes and as text gives
/// the same answer.
pub proof fn lemma_order_agreement(v: ulid, w: ulid)
    ensures
        (v.0 < w.0) == bytes_lt(bytes_of(v.0), bytes_of(w.0)),
        (v.0 < w.0) == text_lt(text_of(v.0), text_of(w.0)),
{
    lemma_spans();
    let (bv, bw) = (digits(v.0 as int, 256, 16), digits(w.0 as int, 256, 16));
    lemma_digits_len(v.0 as int, 256, 16);
    lemma_digits_len(w.0 as int, 256, 16);
    lemma_digits_bounded(v.0 as int, 256, 16);
    lemma_digits_bounded(w.0 as int, 256, 16);
    assert(bytes_of(v.0).map(|i: int, x: u8| x as int) =~= bv);
    assert(bytes_of(w.0).map(|i: int, x: u8| x as int) =~= bw);
    lemma_digits_order(v.0 as int, w.0 as int, 256, 16);

    let (tv, tw) = (digits(v.0 as int, 32, 26), digits(w.0 as int, 32, 26));
    lemma_digits_len(v.0 as int, 32, 26);
    lemma_digits_len(w.0 as int, 32, 26);
    lemma_digits_bounded(v.0 as int, 32, 26);
    lemma_digits_bounded(w.0 as int, 32, 26);
    assert(text_of(v.0).map(|i: int, c: char| c as int) =~= tv.map(
        |i: int, d: int| alphabet()[d] as int,
    ));
    assert(text_of(w.0).map(|i: int, c: char| c as int) =~= tw.map(
        |i: int, d: int| alphabet()[d] as int,
    ));
    lemma_alphabet_keeps_order(tv, tw);
    lemma_digits_order(v.0 as int, w.0 as int, 32, 26);
}

} // verus!
