//! The canonical text form: 26 characters of Crockford's base-32 alphabet,
//! read without regard to case.
use crate::digits::{digits, digits_value, lex_lt};
use crate::{id_span, ulid, UlidError};
use vstd::prelude::*;

verus! {

/// The 32 symbols in the order of their values.
pub open spec fn alphabet() -> Seq<char> {
    seq![
        '0', '1', '2', '3', '4', '5', '6', '7', '8', '9', 'A', 'B', 'C', 'D', 'E', 'F',
        'G', 'H', 'J', 'K', 'M', 'N', 'P', 'Q', 'R', 'S', 'T', 'V', 'W', 'X', 'Y', 'Z',
    ]
}

/// The code of a character once an ASCII lowercase letter is made uppercase.
pub open spec fn upper_code(c: char) -> int {
    if 'a' <= c <= 'z' {
        c as int - 32
    } else {
        c as int
    }
}

/// The value of a symbol of the alphabet in either case, and -1 for any other
/// character.
pub open spec fn base32_digit(c: char) -> int {
    let u = upper_code(c);
    if '0' as int <= u <= '9' as int {
        u - '0' as int
    } else if 'A' as int <= u <= 'H' as int {
        u - 'A' as int + 10
    } else if u == 'J' as int || u == 'K' as int {
        u - 'J' as int + 18
    } else if u == 'M' as int || u == 'N' as int {
        u - 'M' as int + 20
    } else if 'P' as int <= u <= 'T' as int {
        u - 'P' as int + 22
    } else if 'V' as int <= u <= 'Z' as int {
        u - 'V' as int + 27
    } else {
        -1
    }
}

pub open spec fn is_base32_char(c: char) -> bool {
    base32_digit(c) >= 0
}

pub open spec fn all_base32(s: Seq<char>) -> bool {
    forall|i: int| 0 <= i < s.len() ==> is_base32_char(#[trigger] s[i])
}

/// The canonical text of an identifier value: its 26 base-32 digits, most
/// significant first, written with the alphabet.
pub open spec fn text_of(v: u128) -> Seq<char> {
    digits(v as int, 32, 26).map(|i: int, d: int| alphabet()[d])
}

/// The number that a string of base-32 symbols denotes.
pub open spec fn text_value(s: Seq<char>) -> int {
    digits_value(s.map(|i: int, c: char| base32_digit(c)), 32)
}

/// What decoding a text gives. Of the 130 bits that 26 symbols carry, the two
/// above the 128 of an identifier are dropped.
pub open spec fn parse_text(s: Seq<char>) -> Result<ulid, UlidError> {
    if s.len() != 26 {
        Err(UlidError::InvalidLength)
    } else if !all_base32(s) {
        Err(UlidError::InvalidCharacter)
    } else {
        Ok(ulid((text_value(s) % id_span()) as u128))
    }
}

/// A character with the Unicode property White_Space.
pub open spec fn is_white_space(c: char) -> bool {
    ('\u{9}' <= c <= '\u{d}') || c == ' ' || c == '\u{85}' || c == '\u{a0}' || c == '\u{1680}'
        || ('\u{2000}' <= c <= '\u{200a}') || c == '\u{2028}' || c == '\u{2029}' || c
        == '\u{202f}' || c == '\u{205f}' || c == '\u{3000}'
}

/// A text without its leading and trailing white space.
pub open spec fn trimmed(s: Seq<char>) -> Seq<char>
    decreases s.len(),
{
    if s.len() > 0 && is_white_space(s[0]) {
        trimmed(s.drop_first())
    } else if s.len() > 0 && is_white_space(s.last()) {
        trimmed(s.drop_last())
    } else {
        s
    }
}

/// What decoding a text gives: surrounding white space is ignored.
pub open spec fn decode_text(s: Seq<char>) -> Result<ulid, UlidError> {
    parse_text(trimmed(s))
}

/// Each symbol of the alphabet reads back as its position, and the alphabet
/// is in increasing order of character codes.
pub proof fn lemma_alphabet()
    ensures
        alphabet().len() == 32,
        forall|d: int| 0 <= d < 32 ==> base32_digit(#[trigger] alphabet()[d]) == d,
        forall|d: int, e: int|
            0 <= d < e < 32 ==> (#[trigger] alphabet()[d] as int) < (#[trigger] alphabet()[e] as int),
{
}

/// Text order: lexicographic over character codes.
pub open spec fn text_lt(a: Seq<char>, c: Seq<char>) -> bool {
    lex_lt(a.map(|i: int, ch: char| ch as int), c.map(|i: int, ch: char| ch as int))
}

/// Writing digits with the alphabet keeps their lexicographic order.
pub proof fn lemma_alphabet_keeps_order(a: Seq<int>, c: Seq<int>)
    requires
        forall|i: int| 0 <= i < a.len() ==> 0 <= #[trigger] a[i] < 32,
        forall|i: int| 0 <= i < c.len() ==> 0 <= #[trigger] c[i] < 32,
    ensures
        lex_lt(a.map(|i: int, d: int| alphabet()[d] as int), c.map(|i: int, d: int| alphabet()[d] as int))
            == lex_lt(a, c),
    decreases a.len(),
{
    lemma_alphabet();
    let fa = a.map(|i: int, d: int| alphabet()[d] as int);
    let fc = c.map(|i: int, d: int| alphabet()[d] as int);
    if a.len() > 0 && c.len() > 0 {
        assert(fa.drop_first() =~= a.drop_first().map(|i: int, d: int| alphabet()[d] as int));
        assert(fc.drop_first() =~= c.drop_first().map(|i: int, d: int| alphabet()[d] as int));
        lemma_alphabet_keeps_order(a.drop_first(), c.drop_first());
        if a[0] < c[0] {
            assert(fa[0] < fc[0]);
        } else if c[0] < a[0] {
            assert(fc[0] < fa[0]);
        }
    }
}

/// Two characters that agree once made uppercase are both white space or
/// neither.
proof fn lemma_white_space_ignores_case(c: char, d: char)
    requires
        upper_code(c) == upper_code(d),
    ensures
        is_white_space(c) == is_white_space(d),
{
}

/// Trimming two texts that agree once made uppercase leaves two texts that
/// still agree so.
proof fn lemma_trimmed_ignores_case(s: Seq<char>, t: Seq<char>)
    requires
        s.len() == t.len(),
        forall|i: int| 0 <= i < s.len() ==> upper_code(#[trigger] s[i]) == upper_code(t[i]),
    ensures
        trimmed(s).len() == trimmed(t).len(),
        forall|i: int|
            0 <= i < trimmed(s).len() ==> upper_code(#[trigger] trimmed(s)[i]) == upper_code(
                trimmed(t)[i],
            ),
    decreases s.len(),
{
    if s.len() > 0 {
        lemma_white_space_ignores_case(s[0], t[0]);
        lemma_white_space_ignores_case(s.last(), t.last());
        if is_white_space(s[0]) {
            lemma_trimmed_ignores_case(s.drop_first(), t.drop_first());
        } else if is_white_space(s.last()) {
            lemma_trimmed_ignores_case(s.drop_last(), t.drop_last());
        }
    }
}

/// Decoding does not depend on the case of letters: two texts that agree once
/// their ASCII lowercase letters are made uppercase decode to the same result.
pub proof fn lemma_case_insensitive(s: Seq<char>, t: Seq<char>)
    requires
        s.len() == t.len(),
        forall|i: int| 0 <= i < s.len() ==> upper_code(#[trigger] s[i]) == upper_code(t[i]),
    ensures
        decode_text(s) == decode_text(t),
{
    lemma_trimmed_ignores_case(s, t);
    let (s, t) = (trimmed(s), trimmed(t));
    assert(s.map(|i: int, c: char| base32_digit(c)) =~= t.map(|i: int, c: char| base32_digit(c)));
    if all_base32(s) {
        assert forall|i: int| 0 <= i < t.len() implies is_base32_char(#[trigger] t[i]) by {
            assert(is_base32_char(s[i]));
        }
    }
    if all_base32(t) {
        assert forall|i: int| 0 <= i < s.len() implies is_base32_char(#[trigger] s[i]) by {
            assert(is_base32_char(t[i]));
        }
    }
}

} // verus!
