//! Fractions of natural numbers, and rounding them to whole numbers.

use vstd::arithmetic::div_mod::{
    lemma_fundamental_div_mod, lemma_fundamental_div_mod_converse, lemma_mod_bound,
};
use vstd::prelude::*;

verus! {

/// A non-negative rational number, `num / den`.
pub struct Fraction {
    pub num: nat,
    pub den: nat,
}

/// Whether `a <= b` as numbers.
pub open spec fn at_most(a: Fraction, b: Fraction) -> bool {
    a.num * b.den <= b.num * a.den
}

/// The integer nearest to `n / d`; of two equally near, the even one.
pub open spec fn round_ties_even(n: nat, d: nat) -> nat {
    let q = n / d;
    let r = n % d;
    if 2 * r < d || (2 * r == d && q % 2 == 0) {
        q
    } else {
        q + 1
    }
}

/// The integer nearest to `n / d`; of two equally near, the larger one.
pub open spec fn round_ties_away(n: nat, d: nat) -> nat {
    (2 * n + d) / (2 * d)
}

/// A rounded quotient is within half a unit of the quotient.
pub(crate) proof fn lemma_round_near(n: nat, d: nat)
    requires
        d > 0,
    ensures
        2 * (round_ties_even(n, d) * d) <= 2 * n + d,
        2 * n <= 2 * (round_ties_even(n, d) * d) + d,
{
    lemma_fundamental_div_mod(n as int, d as int);
    lemma_mod_bound(n as int, d as int);
    let q = n / d;
    let r = n % d;
    assert((q + 1) * d == q * d + d) by (nonlinear_arith);
    assert(d * q == q * d) by (nonlinear_arith);
}

/// Rounding keeps a quotient between the whole numbers around it.
pub(crate) proof fn lemma_round_between(n: nat, d: nat, lo: nat, hi: nat)
    requires
        d > 0,
        lo * d <= n <= hi * d,
    ensures
        lo <= round_ties_even(n, d) <= hi,
{
    lemma_fundamental_div_mod(n as int, d as int);
    lemma_mod_bound(n as int, d as int);
    let q = n / d;
    let r = n % d;
    assert(d * q == q * d) by (nonlinear_arith);
    assert(lo <= q) by (nonlinear_arith)
        requires
            lo * d <= q * d + r,
            r < d,
            d > 0,
    ;
    assert(q <= hi) by (nonlinear_arith)
        requires
            q * d + r <= hi * d,
            r >= 0,
            d > 0,
    ;
    if q == hi {
        // then n == hi * d and nothing is left over
        assert(r == 0);
    }
}

/// Rounding sees the quotient only.
pub(crate) proof fn lemma_round_scaled(n: nat, d: nat, c: nat)
    requires
        d > 0,
        c > 0,
    ensures
        round_ties_even(n * c, d * c) == round_ties_even(n, d),
{
    lemma_fundamental_div_mod(n as int, d as int);
    lemma_mod_bound(n as int, d as int);
    let q = n / d;
    let r = n % d;
    assert(n * c == (q as int) * (d * c) + r * c && 0 <= r * c < d * c) by (nonlinear_arith)
        requires
            n == d * q + r,
            0 <= r < d,
            c > 0,
    ;
    assert(d * c > 0) by (nonlinear_arith)
        requires
            d > 0,
            c > 0,
    ;
    lemma_fundamental_div_mod_converse((n * c) as int, (d * c) as int, q as int, (r * c) as int);
    assert(2 * (r * c) == (2 * r) * c) by (nonlinear_arith);
    assert((2 * r < d) == ((2 * r) * c < d * c)) by (nonlinear_arith)
        requires
            c > 0,
    ;
    assert((2 * r == d) == ((2 * r) * c == d * c)) by (nonlinear_arith)
        requires
            c > 0,
    ;
}

/// The one whole number within half a unit of `n / d`, the upper half
/// excluded, is what rounding with ties away gives.
pub(crate) proof fn lemma_round_away_is(n: nat, d: nat, t: nat)
    requires
        d > 0,
        2 * (t * d) <= 2 * n + d < 2 * (t * d) + 2 * d,
    ensures
        round_ties_away(n, d) == t,
{
    let x = (2 * n + d) as int;
    let r = x - t * (2 * d);
    assert(t * (2 * d) == 2 * (t * d)) by (nonlinear_arith);
    lemma_fundamental_div_mod_converse(x, (2 * d) as int, t as int, r);
}

/// A whole number at most half a unit above `n / d` is at most what
/// rounding with ties away gives.
pub(crate) proof fn lemma_round_away_reaches(n: nat, d: nat, t: nat)
    requires
        d > 0,
        2 * (t * d) <= 2 * n + d,
    ensures
        round_ties_away(n, d) >= t,
{
    let x = (2 * n + d) as int;
    let c = (2 * d) as int;
    lemma_fundamental_div_mod(x, c);
    lemma_mod_bound(x, c);
    let q = x / c;
    assert(q >= t) by (nonlinear_arith)
        requires
            x == c * q + x % c,
            0 <= x % c < c,
            2 * (t * d) <= x,
            c == 2 * d,
            d > 0,
    {
        if q < t {
            assert(c * q + c <= c * t);
            assert(c * t == 2 * (t * d));
        }
    }
}

/// Rounding to the nearest whole number keeps the order of quotients.
pub(crate) proof fn lemma_round_monotone(a1: nat, b1: nat, a2: nat, b2: nat)
    requires
        b1 > 0,
        b2 > 0,
        a1 * b2 <= a2 * b1,
    ensures
        round_ties_even(a1, b1) <= round_ties_even(a2, b2),
{
    lemma_fundamental_div_mod(a1 as int, b1 as int);
    lemma_fundamental_div_mod(a2 as int, b2 as int);
    lemma_mod_bound(a1 as int, b1 as int);
    lemma_mod_bound(a2 as int, b2 as int);
    let q1 = a1 / b1;
    let r1 = a1 % b1;
    let q2 = a2 / b2;
    let r2 = a2 % b2;
    assert(q1 <= q2) by (nonlinear_arith)
        requires
            a1 == b1 * q1 + r1,
            a2 == b2 * q2 + r2,
            0 <= r1 < b1,
            0 <= r2 < b2,
            a1 * b2 <= a2 * b1,
            q1 >= 0,
            q2 >= 0,
    {
        if q1 > q2 {
            assert((b1 * q1) * b2 >= (b1 * (q2 + 1)) * b2);
            assert((b1 * (q2 + 1)) * b2 == (b2 * q2) * b1 + b1 * b2);
            assert(r2 * b1 < b2 * b1);
            assert(a2 * b1 == (b2 * q2) * b1 + r2 * b1);
            assert(a1 * b2 == (b1 * q1) * b2 + r1 * b2);
            assert(r1 * b2 >= 0);
        }
    }
    if q1 == q2 {
        assert(r1 * b2 <= r2 * b1) by (nonlinear_arith)
            requires
                a1 == b1 * q1 + r1,
                a2 == b2 * q1 + r2,
                a1 * b2 <= a2 * b1,
        {
            assert(a1 * b2 == (b1 * q1) * b2 + r1 * b2);
            assert(a2 * b1 == (b2 * q1) * b1 + r2 * b1);
            assert((b1 * q1) * b2 == (b2 * q1) * b1);
        }
        assert(2 * r1 >= b1 ==> 2 * r2 >= b2) by (nonlinear_arith)
            requires
                r1 * b2 <= r2 * b1,
                b1 > 0,
                b2 > 0,
        {
            if 2 * r1 >= b1 && 2 * r2 < b2 {
                assert((2 * r2) * b1 < b2 * b1);
                assert((2 * r1) * b2 >= b1 * b2);
            }
        }
        assert(2 * r1 > b1 ==> 2 * r2 > b2) by (nonlinear_arith)
            requires
                r1 * b2 <= r2 * b1,
                b1 > 0,
                b2 > 0,
        {
            if 2 * r1 > b1 && 2 * r2 <= b2 {
                assert((2 * r2) * b1 <= b2 * b1);
                assert((2 * r1) * b2 > b1 * b2);
            }
        }
    }
}

/// `x <= y` from `c * x <= c * y`.
pub(crate) proof fn lemma_cancel_le(c: int, x: int, y: int)
    requires
        c > 0,
        c * x <= c * y,
    ensures
        x <= y,
{
    assert(x <= y) by (nonlinear_arith)
        requires
            c > 0,
            c * x <= c * y,
    ;
}

/// `x < y` from `c * x < c * y`.
pub(crate) proof fn lemma_cancel_lt(c: int, x: int, y: int)
    requires
        c > 0,
        c * x < c * y,
    ensures
        x < y,
{
    assert(x < y) by (nonlinear_arith)
        requires
            c > 0,
            c * x < c * y,
    ;
}

} // verus!
