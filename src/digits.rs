//! Positional notation: a natural number as a fixed count of digits in a base,
//! most significant first, and the lexicographic order on digit sequences.
use vstd::arithmetic::div_mod::*;
use vstd::arithmetic::mul::*;
use vstd::arithmetic::power::*;
use vstd::prelude::*;

verus! {

/// The `n` least significant digits of `v` in base `b`, most significant first.
pub open spec fn digits(v: int, b: int, n: nat) -> Seq<int>
    decreases n,
{
    if n == 0 {
        Seq::empty()
    } else {
        digits(v / b, b, (n - 1) as nat).push(v % b)
    }
}

/// The number that a digit sequence denotes in base `b`, most significant first.
pub open spec fn digits_value(ds: Seq<int>, b: int) -> int
    decreases ds.len(),
{
    if ds.len() == 0 {
        0
    } else {
        digits_value(ds.drop_last(), b) * b + ds.last()
    }
}

/// Lexicographic order: the first position where the sequences differ decides,
/// and a proper prefix comes first.
pub open spec fn lex_lt(a: Seq<int>, c: Seq<int>) -> bool
    decreases a.len(),
{
    if a.len() == 0 || c.len() == 0 {
        a.len() < c.len()
    } else if a[0] != c[0] {
        a[0] < c[0]
    } else {
        lex_lt(a.drop_first(), c.drop_first())
    }
}

pub proof fn lemma_digits_len(v: int, b: int, n: nat)
    ensures
        digits(v, b, n).len() == n,
    decreases n,
{
    if n > 0 {
        lemma_digits_len(v / b, b, (n - 1) as nat);
    }
}

/// Every digit of a non-negative number lies in `0..b`.
pub proof fn lemma_digits_bounded(v: int, b: int, n: nat)
    requires
        v >= 0,
        b > 1,
    ensures
        forall|i: int| 0 <= i < n ==> 0 <= #[trigger] digits(v, b, n)[i] < b,
    decreases n,
{
    lemma_digits_len(v, b, n);
    if n > 0 {
        lemma_div_pos_is_pos(v, b);
        lemma_digits_bounded(v / b, b, (n - 1) as nat);
        lemma_digits_len(v / b, b, (n - 1) as nat);
        lemma_mod_bound(v, b);
        assert forall|i: int| 0 <= i < n implies 0 <= #[trigger] digits(v, b, n)[i] < b by {
            if i < n - 1 {
                assert(digits(v, b, n)[i] == digits(v / b, b, (n - 1) as nat)[i]);
            }
        }
    }
}

/// Dropping the last digit of a value below `b^n` leaves one below `b^(n-1)`.
pub proof fn lemma_quotient_bounded(v: int, b: int, n: nat)
    requires
        0 <= v < pow(b, n),
        b > 1,
        n > 0,
    ensures
        0 <= v / b < pow(b, (n - 1) as nat),
        pow(b, n) == b * pow(b, (n - 1) as nat),
{
    reveal(pow);
    let p = pow(b, (n - 1) as nat);
    lemma_mul_is_commutative(b, p);
    lemma_div_by_multiple_is_strongly_ordered(v, p * b, p, b);
    lemma_div_multiples_vanish(p, b);
    lemma_div_pos_is_pos(v, b);
}

/// Writing a number below `b^n` with `n` digits loses nothing.
pub proof fn lemma_digits_round_trip(v: int, b: int, n: nat)
    requires
        0 <= v < pow(b, n),
        b > 1,
    ensures
        digits_value(digits(v, b, n), b) == v,
    decreases n,
{
    if n == 0 {
        reveal(pow);
    } else {
        let q = v / b;
        reveal(pow);
        assert(pow(b, n) == b * pow(b, (n - 1) as nat));
        lemma_fundamental_div_mod(v, b);
        lemma_div_pos_is_pos(v, b);
        lemma_mod_bound(v, b);
        lemma_quotient_bounded(v, b, n);
        lemma_digits_round_trip(q, b, (n - 1) as nat);
        assert(digits(v, b, n).drop_last() =~= digits(q, b, (n - 1) as nat));
        lemma_mul_is_commutative(b, q);
    }
}

/// A sequence of digits below `b` denotes a value below `b` to the power of its length.
pub proof fn lemma_digits_value_bounded(ds: Seq<int>, b: int)
    requires
        b > 1,
        forall|i: int| 0 <= i < ds.len() ==> 0 <= #[trigger] ds[i] < b,
    ensures
        0 <= digits_value(ds, b) < pow(b, ds.len()),
    decreases ds.len(),
{
    reveal(pow);
    if ds.len() > 0 {
        let init = ds.drop_last();
        lemma_digits_value_bounded(init, b);
        let w = digits_value(init, b);
        let p = pow(b, init.len());
        assert(pow(b, ds.len()) == b * p);
        assert(digits_value(ds, b) == w * b + ds.last());
        assert(w * b + ds.last() < b * p) by (nonlinear_arith)
            requires
                0 <= w < p,
                0 <= ds.last() < b,
        ;
        assert(w * b >= 0) by (nonlinear_arith)
            requires
                w >= 0,
                b > 1,
        ;
    }
}

/// Extending two sequences of equal length by one element each: the old parts
/// decide unless they are equal, then the new elements do.
pub proof fn lemma_lex_lt_push(a: Seq<int>, c: Seq<int>, x: int, y: int)
    requires
        a.len() == c.len(),
    ensures
        lex_lt(a.push(x), c.push(y)) == (lex_lt(a, c) || (a == c && x < y)),
    decreases a.len(),
{
    let (ax, cy) = (a.push(x), c.push(y));
    if a.len() == 0 {
        assert(ax[0] == x && cy[0] == y);
        assert(ax.drop_first().len() == 0 && cy.drop_first().len() == 0);
        assert(a =~= c);
        if x == y {
            assert(!lex_lt(ax.drop_first(), cy.drop_first()));
        }
    } else {
        assert(ax[0] == a[0] && cy[0] == c[0]);
        assert(ax.drop_first() =~= a.drop_first().push(x));
        assert(cy.drop_first() =~= c.drop_first().push(y));
        lemma_lex_lt_push(a.drop_first(), c.drop_first(), x, y);
        if a[0] == c[0] {
            if a.drop_first() == c.drop_first() {
                assert forall|i: int| 0 <= i < a.len() implies a[i] == c[i] by {
                    if i > 0 {
                        assert(a[i] == a.drop_first()[i - 1]);
                        assert(c[i] == c.drop_first()[i - 1]);
                    }
                }
                assert(a =~= c);
            }
        } else {
            assert(a[0] != c[0]);
        }
    }
}

/// Numeric order of values below `b^n` is the lexicographic order of their digits.
pub proof fn lemma_digits_order(v: int, w: int, b: int, n: nat)
    requires
        0 <= v < pow(b, n),
        0 <= w < pow(b, n),
        b > 1,
    ensures
        (v < w) == lex_lt(digits(v, b, n), digits(w, b, n)),
    decreases n,
{
    if n == 0 {
        reveal(pow);
    } else {
        reveal(pow);
        let m = (n - 1) as nat;
        assert(pow(b, n) == b * pow(b, m));
        let (qv, qw) = (v / b, w / b);
        lemma_fundamental_div_mod(v, b);
        lemma_fundamental_div_mod(w, b);
        lemma_div_pos_is_pos(v, b);
        lemma_div_pos_is_pos(w, b);
        lemma_mod_bound(v, b);
        lemma_mod_bound(w, b);
        lemma_quotient_bounded(v, b, n);
        lemma_quotient_bounded(w, b, n);
        lemma_digits_order(qv, qw, b, m);
        lemma_digits_len(qv, b, m);
        lemma_digits_len(qw, b, m);
        lemma_lex_lt_push(digits(qv, b, m), digits(qw, b, m), v % b, w % b);
        lemma_digits_round_trip(qv, b, m);
        lemma_digits_round_trip(qw, b, m);
        if qv < qw {
            assert(qv + 1 <= qw);
            assert(b * qv + b <= b * qw) by (nonlinear_arith)
                requires
                    qv + 1 <= qw,
                    b > 1,
            ;
        } else if qw < qv {
            assert(b * qw + b <= b * qv) by (nonlinear_arith)
                requires
                    qw + 1 <= qv,
                    b > 1,
            ;
        }
    }
}

} // verus!
