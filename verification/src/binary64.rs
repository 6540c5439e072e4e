//! Rounding a positive fraction to the nearest binary64 number.
//!
//! A scale factor is the binary64 quotient of two lengths, and a scaled
//! length is the binary64 product of a length and a scale factor, rounded to
//! a whole number. Both are stated and computed here over fractions of
//! natural numbers, so that every result is an exact statement about
//! integers.

use crate::fraction::{
    at_most, lemma_cancel_le, lemma_cancel_lt, lemma_round_away_is, lemma_round_away_reaches,
    lemma_round_between, lemma_round_monotone, lemma_round_near, lemma_round_scaled,
    round_ties_away, round_ties_even, Fraction,
};
use vstd::arithmetic::div_mod::lemma_multiply_divide_lt;
use vstd::arithmetic::power2::{
    lemma2_to64, lemma_pow2_adds, lemma_pow2_pos, lemma_pow2_strictly_increases,
    lemma_pow2_subtracts, lemma_pow2_unfold, pow2,
};
use vstd::prelude::*;

verus! {

/// `2^e` for a positive `e`, else 1: two to the power of any integer `e` is
/// `up(e) / up(-e)`.
pub open spec fn up(e: int) -> nat {
    if e > 0 {
        pow2(e as nat)
    } else {
        1
    }
}

/// Whether `2^52 <= (n / d) / 2^e < 2^53`: the binary64 numbers between
/// `2^(52 + e)` and `2^(53 + e)` are the multiples of `2^e`.
pub open spec fn in_binade(n: nat, d: nat, e: int) -> bool {
    pow2(52) * (d * up(e)) <= n * up(-e) < pow2(53) * (d * up(e))
}

/// The one exponent `e` with `in_binade(n, d, e)`, for positive `n` and `d`.
pub open spec fn exponent(n: nat, d: nat) -> int {
    choose|e: int| in_binade(n, d, e)
}

/// The binary64 number nearest to `n / d`, for positive `n` and `d`: the
/// multiple of `2^e` nearest to it, where `e` is its exponent, and of two
/// equally near the even multiple. The format's exponent range is not
/// modelled; quotients and products of 32-bit lengths stay far inside it.
pub open spec fn binary64(n: nat, d: nat) -> Fraction {
    let e = exponent(n, d);
    Fraction { num: round_ties_even(n * up(-e), d * up(e)) * up(e), den: up(-e) }
}

/// The length `len` scaled by `scale` and rounded to a whole number, as
/// binary64 arithmetic gives it: the product rounded to binary64, that
/// rounded to the nearest integer with ties away from zero, and the integer
/// held between 1 and `u32::MAX`.
pub open spec fn scaled(len: nat, scale: Fraction) -> nat {
    let product = binary64(len * scale.num, scale.den);
    let whole = round_ties_away(product.num, product.den);
    if whole < 1 {
        1
    } else if whole > u32::MAX {
        u32::MAX as nat
    } else {
        whole
    }
}

/// A scale factor: the binary64 quotient of two positive 32-bit lengths.
#[derive(Clone, Copy, Debug)]
pub struct Scale {
    /// The significand, between `2^52` and `2^53`.
    mant: u64,
    /// The factor is `mant / 2^shift`.
    shift: u32,
    /// `2^shift`.
    unit: u128,
}

impl View for Scale {
    type V = Fraction;

    closed spec fn view(&self) -> Fraction {
        Fraction { num: self.mant as nat, den: pow2(self.shift as nat) }
    }
}

impl Scale {
    #[verifier::type_invariant]
    spec fn inv(self) -> bool {
        &&& pow2(52) <= self.mant <= pow2(53)
        &&& self.shift <= 84
        &&& self.unit == pow2(self.shift as nat)
    }

    /// The scale factor `num / den`.
    pub fn ratio(num: u32, den: u32) -> (s: Scale)
        requires
            num > 0,
            den > 0,
        ensures
            s@ == binary64(num as nat, den as nat),
    {
        proof {
            lemma_pow2_values();
        }
        let floor: u128 = 0x10_0000_0000_0000u128 * (den as u128);
        let mut x: u128 = num as u128;
        let mut unit: u128 = 1;
        let mut shift: u32 = 0;
        assert(x == num * pow2(0)) by (nonlinear_arith)
            requires
                x == num,
                pow2(0) == 1,
        ;
        while x < floor
            invariant
                num > 0,
                den > 0,
                floor == pow2(52) * den,
                floor < pow2(84),
                pow2(53) == 2 * pow2(52),
                x == num * pow2(shift as nat),
                unit == pow2(shift as nat),
                x < pow2(53) * den,
                1 <= unit <= x,
                shift <= 84,
            decreases 84 - shift,
        {
            proof {
                lemma_pow2_values();
                lemma_pow2_unfold((shift + 1) as nat);
                if shift >= 84 {
                    if shift > 84 {
                        lemma_pow2_strictly_increases(84, shift as nat);
                    }
                }
                lemma_pow2_pos(shift as nat);
                assert(pow2(53) * den == 2 * (pow2(52) * den)) by (nonlinear_arith)
                    requires
                        pow2(53) == 2 * pow2(52),
                ;
                assert(num * (2 * pow2(shift as nat)) == 2 * (num * pow2(shift as nat)))
                    by (nonlinear_arith);
                assert(2 * pow2(shift as nat) <= num * (2 * pow2(shift as nat)))
                    by (nonlinear_arith)
                    requires
                        num >= 1,
                ;
            }
            x = x * 2;
            unit = unit * 2;
            shift = shift + 1;
        }
        let q: u128 = x / (den as u128);
        let r: u128 = x % (den as u128);
        proof {
            lemma_pow2_values();
            lemma_round_between(x as nat, den as nat, pow2(52), pow2(53));
            lemma_quotient(num as nat, den as nat, shift as nat);
        }
        let mant: u128 = if 2 * r < den as u128 || (2 * r == den as u128 && q % 2 == 0) {
            q
        } else {
            q + 1
        };
        Scale { mant: mant as u64, shift, unit }
    }

    /// The length `len` under this scale factor, as a whole number of
    /// pixels.
    pub fn times(&self, len: u32) -> (r: u32)
        requires
            len > 0,
        ensures
            r == scaled(len as nat, self@),
            r >= 1,
    {
        proof {
            use_type_invariant(self);
            lemma_pow2_values();
            lemma_pow2_pos(self.shift as nat);
            if self.shift < 84 {
                lemma_pow2_strictly_increases(self.shift as nat, 84);
            }
        }
        assert(0x10_0000_0000_0000 <= len * self.mant < 0x20_0000_0000_0000 * 0x1_0000_0000)
            by (nonlinear_arith)
            requires
                1 <= len < 0x1_0000_0000,
                0x10_0000_0000_0000 <= self.mant <= 0x20_0000_0000_0000,
        ;
        let p: u128 = (len as u128) * (self.mant as u128);
        let mut step: u128 = 1;
        let mut halvings: u32 = 0;
        while p >= 0x20_0000_0000_0000u128 * step
            invariant
                pow2(52) == 0x10_0000_0000_0000,
                pow2(53) == 0x20_0000_0000_0000,
                pow2(32) == 0x1_0000_0000,
                step == pow2(halvings as nat),
                pow2(52) * pow2(halvings as nat) <= p < pow2(53) * pow2(32),
                halvings <= 32,
                step <= pow2(32),
            decreases 32 - halvings,
        {
            proof {
                lemma_pow2_unfold((halvings + 1) as nat);
                if halvings == 32 {
                    assert(pow2(53) * pow2(32) <= p);
                }
                assert(pow2(52) * (2 * step) == pow2(53) * step) by (nonlinear_arith)
                    requires
                        pow2(53) == 2 * pow2(52),
                ;
                if halvings + 1 < 32 {
                    lemma_pow2_strictly_increases((halvings + 1) as nat, 32);
                }
            }
            step = step * 2;
            halvings = halvings + 1;
        }
        let q: u128 = p / step;
        let rest: u128 = p % step;
        let mant: u128 = if 2 * rest < step || (2 * rest == step && q % 2 == 0) {
            q
        } else {
            q + 1
        };
        proof {
            lemma_pow2_pos(halvings as nat);
            assert(pow2(52) * step <= p <= pow2(53) * step);
            lemma_round_between(p as nat, step as nat, pow2(52), pow2(53));
            lemma_product(p as nat, self.shift as nat, halvings as nat);
            assert(self@.num == self.mant && self@.den == pow2(self.shift as nat));
        }
        let ghost product = binary64(p as nat, pow2(self.shift as nat));
        if step >= self.unit {
            proof {
                // a whole number of at least 2^52
                if halvings < self.shift {
                    lemma_pow2_strictly_increases(halvings as nat, self.shift as nat);
                }
                lemma_up_whole(halvings - self.shift);
                lemma_pow2_pos((halvings - self.shift) as nat);
                assert(product.den == 1);
                assert(product.num >= mant) by (nonlinear_arith)
                    requires
                        product.num == mant * up(halvings - self.shift),
                        up(halvings - self.shift) >= 1,
                ;
                lemma_round_away_is(product.num, 1, product.num);
            }
            u32::MAX
        } else {
            proof {
                if halvings >= self.shift {
                    if halvings > self.shift {
                        lemma_pow2_strictly_increases(self.shift as nat, halvings as nat);
                    }
                }
                lemma_up_whole(self.shift - halvings);
                lemma_pow2_subtracts(halvings as nat, self.shift as nat);
                assert(product.num == mant) by (nonlinear_arith)
                    requires
                        product.num == mant * 1,
                ;
            }
            let den: u128 = self.unit / step;
            let whole: u128 = (2 * mant + den) / (2 * den);
            if whole < 1 {
                1
            } else if whole > u32::MAX as u128 {
                u32::MAX
            } else {
                whole as u32
            }
        }
    }
}

/// The powers of two that bound lengths, significands and shifts.
proof fn lemma_pow2_values()
    ensures
        pow2(0) == 1,
        pow2(32) == 0x1_0000_0000,
        pow2(52) == 0x10_0000_0000_0000,
        pow2(53) == 0x20_0000_0000_0000,
        pow2(84) == 0x10_0000_0000_0000_0000_0000,
{
    lemma2_to64();
    lemma_pow2_adds(32, 20);
    lemma_pow2_adds(32, 21);
    lemma_pow2_adds(64, 20);
}

/// Raising the exponent by one doubles the power.
proof fn lemma_up_step(e: int)
    ensures
        up(e + 1) * up(-e) == 2 * (up(e) * up(-(e + 1))),
        up(e) > 0,
        up(-e) > 0,
{
    lemma_pow2_pos(0);
    if e >= 0 {
        lemma_pow2_pos(e as nat);
        lemma_pow2_unfold((e + 1) as nat);
        if e == 0 {
            lemma2_to64();
        }
    } else {
        lemma_pow2_pos((-e) as nat);
        lemma_pow2_unfold((-e) as nat);
        if e == -1 {
            lemma2_to64();
        }
    }
}

/// `2^hi / 2^lo == 2^(hi - lo)`, without a division.
proof fn lemma_up_ratio(lo: int, hi: int)
    requires
        lo <= hi,
    ensures
        up(hi) * up(-lo) == pow2((hi - lo) as nat) * (up(lo) * up(-hi)),
    decreases hi - lo,
{
    lemma_up_step(lo);
    if lo == hi {
        lemma2_to64();
        assert(up(hi) * up(-lo) == 1 * (up(lo) * up(-hi))) by (nonlinear_arith)
            requires
                lo == hi,
        ;
    } else {
        lemma_up_ratio(lo, hi - 1);
        lemma_up_step(hi - 1);
        lemma_up_step(hi);
        lemma_pow2_unfold((hi - lo) as nat);
        let p = pow2((hi - 1 - lo) as nat);
        let a = up(hi);
        let b = up(-lo);
        let c = up(hi - 1);
        let f = up(-(hi - 1));
        let g = up(-hi);
        let l = up(lo);
        // c * b == p * (l * f), a * f == 2 * (c * g)
        assert(a * b == (2 * p) * (l * g)) by (nonlinear_arith)
            requires
                c * b == p * (l * f),
                a * f == 2 * (c * g),
                f > 0,
        {
            assert((a * b) * f == (a * f) * b);
            assert((a * f) * b == 2 * ((c * b) * g));
            assert(2 * ((c * b) * g) == ((2 * p) * (l * g)) * f);
        }
    }
}

/// No fraction lies in two binades.
proof fn lemma_binade_unique(n: nat, d: nat, e1: int, e2: int)
    requires
        d > 0,
        in_binade(n, d, e1),
        in_binade(n, d, e2),
    ensures
        e1 == e2,
{
    lemma_binade_order(n, d, e1, e2);
    lemma_binade_order(n, d, e2, e1);
}

proof fn lemma_binade_order(n: nat, d: nat, hi: int, lo: int)
    requires
        d > 0,
        in_binade(n, d, lo),
        in_binade(n, d, hi),
    ensures
        hi <= lo,
{
    if lo < hi {
        lemma_binade_apart(n, d, lo, hi);
    }
}

proof fn lemma_binade_apart(n: nat, d: nat, lo: int, hi: int)
    requires
        d > 0,
        lo < hi,
        in_binade(n, d, lo),
    ensures
        !in_binade(n, d, hi),
{
    if in_binade(n, d, hi) {
        lemma_binade_clash(n, d, lo, hi);
    }
}

proof fn lemma_binade_clash(n: nat, d: nat, lo: int, hi: int)
    requires
        d > 0,
        lo < hi,
        in_binade(n, d, lo),
        in_binade(n, d, hi),
    ensures
        lo >= hi,
{
    lemma_up_ratio(lo, hi);
    lemma_up_step(lo);
    lemma_up_step(hi);
    lemma_pow2_values();
    lemma_pow2_unfold((hi - lo) as nat);
    lemma_pow2_pos((hi - lo - 1) as nat);
    let p = pow2((hi - lo) as nat);
    let ul = up(lo);
    let vl = up(-lo);
    let uh = up(hi);
    let vh = up(-hi);
    let a = pow2(52);
    let b = pow2(53);
    assert(false) by (nonlinear_arith)
        requires
            uh * vl == p * (ul * vh),
            p >= 2,
            d > 0,
            ul > 0,
            vl > 0,
            uh > 0,
            vh > 0,
            a > 0,
            b == 2 * a,
            n * vl < b * (d * ul),
            a * (d * uh) <= n * vh,
    {
        // a d uh vl <= n vh vl < b d ul vh, yet uh vl >= 2 ul vh
        assert((a * (d * uh)) * vl <= (n * vh) * vl);
        assert((n * vl) * vh < (b * (d * ul)) * vh);
        assert((n * vh) * vl == (n * vl) * vh);
        assert((a * (d * uh)) * vl == (a * d) * (uh * vl));
        assert((b * (d * ul)) * vh == (2 * (a * d)) * (ul * vh));
        assert((a * d) * (uh * vl) == (a * d) * (p * (ul * vh)));
        assert(a * d > 0);
        assert(ul * vh > 0);
        assert((a * d) * (p * (ul * vh)) >= (a * d) * (2 * (ul * vh)));
    }
}

/// For `e >= 0`, `2^e` is a whole number.
proof fn lemma_up_whole(e: int)
    requires
        e >= 0,
    ensures
        up(e) == pow2(e as nat),
        up(-e) == 1,
{
    lemma2_to64();
}

/// The number of doublings that bring `n / d` up to the binade of `2^52`.
proof fn lemma_doublings(n: nat, d: nat, k: nat) -> (r: nat)
    requires
        n > 0,
        d > 0,
        n * pow2(k) < pow2(53) * d,
    ensures
        r >= k,
        pow2(52) * d <= n * pow2(r) < pow2(53) * d,
    decreases pow2(53) * d - n * pow2(k),
{
    lemma_pow2_values();
    lemma_pow2_pos(k);
    if pow2(52) * d <= n * pow2(k) {
        k
    } else {
        lemma_pow2_unfold(k + 1);
        assert(n * pow2(k + 1) == 2 * (n * pow2(k))) by (nonlinear_arith)
            requires
                pow2(k + 1) == 2 * pow2(k),
        ;
        assert(n * pow2(k) > 0) by (nonlinear_arith)
            requires
                n > 0,
                pow2(k) > 0,
        ;
        lemma_doublings(n, d, k + 1)
    }
}

/// The number of halvings that bring `n` down to the binade of `2^52`.
proof fn lemma_halvings(n: nat, j: nat) -> (r: nat)
    requires
        pow2(52) * pow2(j) <= n,
    ensures
        r >= j,
        pow2(52) * pow2(r) <= n < pow2(53) * pow2(r),
    decreases n - pow2(52) * pow2(j),
{
    lemma_pow2_values();
    lemma_pow2_pos(j);
    if n < pow2(53) * pow2(j) {
        j
    } else {
        lemma_pow2_unfold(j + 1);
        assert(pow2(52) * pow2(j + 1) == pow2(53) * pow2(j)) by (nonlinear_arith)
            requires
                pow2(j + 1) == 2 * pow2(j),
                pow2(53) == 2 * pow2(52),
        ;
        assert(pow2(52) * pow2(j) > 0) by (nonlinear_arith)
            requires
                pow2(52) > 0,
                pow2(j) > 0,
        ;
        lemma_halvings(n, j + 1)
    }
}

/// The quotient of two lengths as a binary64 number, once the doublings
/// that normalise it are known.
proof fn lemma_quotient(n: nat, d: nat, k: nat)
    requires
        d > 0,
        pow2(52) * d <= n * pow2(k) < pow2(53) * d,
    ensures
        exponent(n, d) == -k,
        binary64(n, d) == (Fraction { num: round_ties_even(n * pow2(k), d), den: pow2(k) }),
{
    lemma_up_whole(k as int);
    assert(d * 1 == d) by (nonlinear_arith);
    assert(in_binade(n, d, -k));
    lemma_binade_unique(n, d, exponent(n, d), -k);
    assert(round_ties_even(n * pow2(k), d) * 1 == round_ties_even(n * pow2(k), d))
        by (nonlinear_arith);
}

/// The product of a length and a scale factor as a binary64 number, once the
/// halvings that normalise its numerator are known.
proof fn lemma_product(p: nat, k: nat, j: nat)
    requires
        pow2(52) * pow2(j) <= p < pow2(53) * pow2(j),
    ensures
        exponent(p, pow2(k)) == j - k,
        binary64(p, pow2(k)) == (Fraction {
            num: round_ties_even(p, pow2(j)) * up(j - k),
            den: up(k - j),
        }),
{
    let e = j - k;
    lemma_pow2_pos(k);
    lemma_pow2_pos(j);
    if j >= k {
        lemma_up_whole(e);
        lemma_pow2_adds(k, (j - k) as nat);
        assert(p * 1 == p) by (nonlinear_arith);
    } else {
        lemma_up_whole(-e);
        let c = pow2((k - j) as nat);
        lemma_pow2_pos((k - j) as nat);
        lemma_pow2_adds(j, (k - j) as nat);
        assert(pow2(k) * 1 == pow2(j) * c) by (nonlinear_arith)
            requires
                pow2(k) == pow2(j) * c,
        ;
        assert(pow2(52) * (pow2(j) * c) <= p * c < pow2(53) * (pow2(j) * c)) by (nonlinear_arith)
            requires
                pow2(52) * pow2(j) <= p < pow2(53) * pow2(j),
                c > 0,
        ;
        lemma_round_scaled(p, pow2(j), c);
    }
    assert(in_binade(p, pow2(k), e));
    lemma_binade_unique(p, pow2(k), exponent(p, pow2(k)), e);
}

/// A length scaled by the quotient of two lengths stays below every bound
/// that the exact proportion respects, and meets a bound that the exact
/// proportion meets: with `num * len <= bound * den`, the scaled length is at
/// most `bound`, and it is `bound` where the two products are equal.
pub proof fn lemma_scaled_within(len: nat, num: nat, den: nat, bound: nat)
    requires
        0 < len <= u32::MAX,
        0 < num <= u32::MAX,
        0 < den <= u32::MAX,
        0 < bound <= u32::MAX,
        num * len <= bound * den,
    ensures
        1 <= scaled(len, binary64(num, den)) <= bound,
        num * len == bound * den ==> scaled(len, binary64(num, den)) == bound,
{
    lemma_pow2_values();
    let a = pow2(52);
    // the scale factor m / kk
    assert(num * pow2(0) < pow2(53) * den) by (nonlinear_arith)
        requires
            num < 0x1_0000_0000,
            den >= 1,
            pow2(0) == 1,
            pow2(53) == 0x20_0000_0000_0000,
    ;
    let k = lemma_doublings(num, den, 0);
    let kk = pow2(k);
    lemma_pow2_pos(k);
    lemma_quotient(num, den, k);
    let m = round_ties_even(num * kk, den);
    lemma_round_near(num * kk, den);
    lemma_round_between(num * kk, den, a, pow2(53));
    let p = len * m;
    // twice the product against twice the bound, both over kk
    assert(den * (2 * p) <= den * (2 * (bound * kk) + len)) by (nonlinear_arith)
        requires
            p == len * m,
            2 * (m * den) <= 2 * (num * kk) + den,
            num * len <= bound * den,
            len > 0,
            kk > 0,
    {
        assert(den * (2 * p) == len * (2 * (m * den)));
        assert(len * (2 * (m * den)) <= len * (2 * (num * kk) + den));
        assert(len * (2 * (num * kk) + den) == 2 * ((num * len) * kk) + den * len);
        assert((num * len) * kk <= (bound * den) * kk);
        assert(2 * ((bound * den) * kk) + den * len == den * (2 * (bound * kk) + len));
    }
    lemma_cancel_le(den as int, (2 * p) as int, (2 * (bound * kk) + len) as int);
    // the length is small against kk
    assert(den * (a * len) <= den * (bound * kk)) by (nonlinear_arith)
        requires
            a * den <= num * kk,
            num * len <= bound * den,
            len > 0,
            kk > 0,
    {
        assert(den * (a * len) == (a * den) * len);
        assert((a * den) * len <= (num * kk) * len);
        assert((num * kk) * len == (num * len) * kk);
        assert((num * len) * kk <= (bound * den) * kk);
        assert((bound * den) * kk == den * (bound * kk));
    }
    lemma_cancel_le(den as int, (a * len) as int, (bound * kk) as int);
    assert(0x10_0000 * len < kk) by (nonlinear_arith)
        requires
            a * len <= bound * kk,
            a == 0x10_0000_0000_0000,
            bound < 0x1_0000_0000,
            kk > 0,
    {
        assert(bound * kk < 0x1_0000_0000 * kk);
        assert(0x1_0000_0000 * (0x10_0000 * len) < 0x1_0000_0000 * kk);
    }
    // the binade of the product
    assert(a * pow2(0) <= p) by (nonlinear_arith)
        requires
            p == len * m,
            len >= 1,
            m >= a,
            pow2(0) == 1,
    ;
    let j = lemma_halvings(p, 0);
    let jj = pow2(j);
    lemma_pow2_pos(j);
    lemma_product(p, k, j);
    let mm = round_ties_even(p, jj);
    lemma_round_near(p, jj);
    assert(0x8_0000 * jj < kk) by (nonlinear_arith)
        requires
            a * jj <= p,
            2 * p <= 2 * (bound * kk) + len,
            0x10_0000 * len < kk,
            a == 0x10_0000_0000_0000,
            bound < 0x1_0000_0000,
            kk > 0,
            jj > 0,
    {
        assert(2 * (bound * kk) <= 0x1_FFFF_FFFE * kk);
        assert(2 * (a * jj) < 0x2_0000_0000 * kk);
    }
    if j >= k {
        if j > k {
            lemma_pow2_strictly_increases(k, j);
        }
    }
    assert(j < k);
    let d = pow2((k - j) as nat);
    lemma_pow2_pos((k - j) as nat);
    lemma_pow2_adds(j, (k - j) as nat);
    lemma_up_whole(k - j);
    assert(mm * 1 == mm) by (nonlinear_arith);
    let product = binary64(p, kk);
    assert(product == (Fraction { num: mm, den: d }));
    let whole = round_ties_away(mm, d);
    // above: twice mm stays under (2 * bound + 1) * d
    assert(jj * (2 * mm + d) < jj * (2 * ((bound + 1) * d))) by (nonlinear_arith)
        requires
            2 * (mm * jj) <= 2 * p + jj,
            2 * p <= 2 * (bound * kk) + len,
            0x10_0000 * len < kk,
            0x8_0000 * jj < kk,
            kk == jj * d,
            jj > 0,
    {
        assert(jj * (2 * mm + d) == 2 * (mm * jj) + kk);
        assert(jj * (2 * ((bound + 1) * d)) == 2 * (bound * kk) + 2 * kk);
    }
    lemma_cancel_lt(jj as int, (2 * mm + d) as int, (2 * ((bound + 1) * d)) as int);
    assert(whole <= bound) by {
        assert((bound + 1) * (2 * d) == 2 * ((bound + 1) * d)) by (nonlinear_arith);
        lemma_multiply_divide_lt((2 * mm + d) as int, (2 * d) as int, (bound + 1) as int);
    }
    if num * len == bound * den {
        lemma_scaled_reaches(len, num, den, bound);
    }
}

/// A length scaled by the quotient of two lengths reaches every bound that
/// the exact proportion reaches: with `num * len >= bound * den`, the scaled
/// length is at least `bound`.
pub proof fn lemma_scaled_reaches(len: nat, num: nat, den: nat, bound: nat)
    requires
        0 < len <= u32::MAX,
        0 < num <= u32::MAX,
        0 < den <= u32::MAX,
        0 < bound <= u32::MAX,
        num * len >= bound * den,
    ensures
        bound <= scaled(len, binary64(num, den)) <= u32::MAX,
{
    lemma_pow2_values();
    let a = pow2(52);
    assert(num * pow2(0) < pow2(53) * den) by (nonlinear_arith)
        requires
            num < 0x1_0000_0000,
            den >= 1,
            pow2(0) == 1,
            pow2(53) == 0x20_0000_0000_0000,
    ;
    let k = lemma_doublings(num, den, 0);
    let kk = pow2(k);
    lemma_pow2_pos(k);
    lemma_quotient(num, den, k);
    let m = round_ties_even(num * kk, den);
    lemma_round_near(num * kk, den);
    lemma_round_between(num * kk, den, a, pow2(53));
    let p = len * m;
    assert(a * pow2(0) <= p) by (nonlinear_arith)
        requires
            p == len * m,
            len >= 1,
            m >= a,
            pow2(0) == 1,
    ;
    let j = lemma_halvings(p, 0);
    let jj = pow2(j);
    lemma_pow2_pos(j);
    lemma_product(p, k, j);
    let mm = round_ties_even(p, jj);
    lemma_round_near(p, jj);
    lemma_round_between(p, jj, a, pow2(53));
    let product = binary64(p, kk);
    let whole = round_ties_away(product.num, product.den);
    if j >= k {
        // a whole number of at least 2^52
        lemma_up_whole(j - k);
        lemma_pow2_pos((j - k) as nat);
        assert(product.num >= mm) by (nonlinear_arith)
            requires
                product.num == mm * up(j - k),
                up(j - k) >= 1,
        ;
        lemma_round_away_is(product.num, 1, product.num);
    } else {
        let d = pow2((k - j) as nat);
        lemma_pow2_pos((k - j) as nat);
        lemma_pow2_adds(j, (k - j) as nat);
        lemma_up_whole(k - j);
        assert(mm * 1 == mm) by (nonlinear_arith);
        assert(product == (Fraction { num: mm, den: d }));
        if k - j <= 20 {
            // at least 2^52 / 2^20
            lemma_pow2_adds(20, 32);
            lemma_pow2_adds(20, 12);
            lemma2_to64();
            if k - j < 20 {
                lemma_pow2_strictly_increases((k - j) as nat, 20);
            }
            assert(2 * (0x1_0000_0000 * d) <= 2 * mm + d) by (nonlinear_arith)
                requires
                    mm >= 0x10_0000_0000_0000,
                    0 < d <= 0x10_0000,
            ;
            lemma_round_away_reaches(mm, d, 0x1_0000_0000);
        } else {
            lemma_pow2_adds(21, (k - j - 21) as nat);
            lemma_pow2_pos((k - j - 21) as nat);
            lemma_pow2_adds(20, 1);
            lemma2_to64();
            // the length and the grid of the product are small against kk
            assert(len + jj < kk) by (nonlinear_arith)
                requires
                    p == len * m,
                    m >= a,
                    p < 2 * (a * jj),
                    kk == jj * d,
                    d >= 0x20_0000,
                    a > 0,
                    jj > 0,
                    len > 0,
            {
                assert(len * a <= len * m);
                assert(a * len < a * (2 * jj));
                assert(len < 2 * jj);
                assert(jj * d >= jj * 0x20_0000);
            }
            assert(den * (2 * (bound * kk)) <= den * (2 * p + len)) by (nonlinear_arith)
                requires
                    p == len * m,
                    2 * (num * kk) <= 2 * (m * den) + den,
                    num * len >= bound * den,
                    len > 0,
                    kk > 0,
            {
                assert(den * (2 * p + len) == len * (2 * (m * den) + den));
                assert(len * (2 * (num * kk)) <= len * (2 * (m * den) + den));
                assert(len * (2 * (num * kk)) == 2 * ((num * len) * kk));
                assert((num * len) * kk >= (bound * den) * kk);
                assert(2 * ((bound * den) * kk) == den * (2 * (bound * kk)));
            }
            lemma_cancel_le(den as int, (2 * (bound * kk)) as int, (2 * p + len) as int);
            assert(jj * (2 * (bound * d)) <= jj * (2 * mm + d)) by (nonlinear_arith)
                requires
                    2 * p <= 2 * (mm * jj) + jj,
                    2 * (bound * kk) <= 2 * p + len,
                    len + jj < kk,
                    kk == jj * d,
                    jj > 0,
            {
                assert(jj * (2 * mm + d) == 2 * (mm * jj) + kk);
                assert(jj * (2 * (bound * d)) == 2 * (bound * kk));
            }
            lemma_cancel_le(jj as int, (2 * (bound * d)) as int, (2 * mm + d) as int);
            lemma_round_away_reaches(mm, d, bound);
        }
    }
}

/// Rounding to binary64 keeps the order of quotients: of two quotients of
/// 32-bit lengths, the smaller has the smaller binary64 number, or the same.
pub proof fn lemma_binary64_monotone(n1: nat, d1: nat, n2: nat, d2: nat)
    requires
        0 < n1 <= u32::MAX,
        0 < d1 <= u32::MAX,
        0 < n2 <= u32::MAX,
        0 < d2 <= u32::MAX,
        n1 * d2 <= n2 * d1,
    ensures
        at_most(binary64(n1, d1), binary64(n2, d2)),
{
    lemma_pow2_values();
    let a = pow2(52);
    let b = pow2(53);
    assert(n1 * pow2(0) < b * d1 && n2 * pow2(0) < b * d2) by (nonlinear_arith)
        requires
            n1 < 0x1_0000_0000,
            n2 < 0x1_0000_0000,
            d1 >= 1,
            d2 >= 1,
            pow2(0) == 1,
            b == 0x20_0000_0000_0000,
    ;
    let k1 = lemma_doublings(n1, d1, 0);
    let k2 = lemma_doublings(n2, d2, 0);
    let kk1 = pow2(k1);
    let kk2 = pow2(k2);
    lemma_pow2_pos(k1);
    lemma_pow2_pos(k2);
    lemma_quotient(n1, d1, k1);
    lemma_quotient(n2, d2, k2);
    let m1 = round_ties_even(n1 * kk1, d1);
    let m2 = round_ties_even(n2 * kk2, d2);
    lemma_round_between(n1 * kk1, d1, a, b);
    lemma_round_between(n2 * kk2, d2, a, b);
    if k1 < k2 {
        // the smaller quotient would need fewer doublings
        let c = pow2((k2 - k1) as nat);
        lemma_pow2_adds(k1, (k2 - k1) as nat);
        lemma_pow2_unfold((k2 - k1) as nat);
        lemma_pow2_pos((k2 - k1 - 1) as nat);
        assert(k1 >= k2) by (nonlinear_arith)
            requires
                kk2 == kk1 * c,
                c >= 2,
                a * d1 <= n1 * kk1,
                n2 * kk2 < b * d2,
                b == 2 * a,
                n1 * d2 <= n2 * d1,
                d1 > 0,
                d2 > 0,
                a > 0,
                kk1 > 0,
        {
            assert((a * d1) * d2 <= (n1 * kk1) * d2);
            assert((n1 * kk1) * d2 == (n1 * d2) * kk1);
            assert((n1 * d2) * kk1 <= (n2 * d1) * kk1);
            assert((n2 * kk2) * d1 < (b * d2) * d1);
            assert((n2 * kk2) * d1 == ((n2 * d1) * kk1) * c);
            assert(((n2 * d1) * kk1) * c >= ((n2 * d1) * kk1) * 2);
            assert((b * d2) * d1 == 2 * ((a * d1) * d2));
        }
    } else if k1 == k2 {
        assert((n1 * kk1) * d2 <= (n2 * kk2) * d1) by (nonlinear_arith)
            requires
                n1 * d2 <= n2 * d1,
                kk1 == kk2,
                kk1 > 0,
        {
            assert((n1 * kk1) * d2 == (n1 * d2) * kk1);
            assert((n2 * kk2) * d1 == (n2 * d1) * kk1);
        }
        lemma_round_monotone(n1 * kk1, d1, n2 * kk2, d2);
        assert(m1 * kk2 <= m2 * kk1) by (nonlinear_arith)
            requires
                m1 <= m2,
                kk1 == kk2,
                kk1 > 0,
        ;
    } else {
        let c = pow2((k1 - k2) as nat);
        lemma_pow2_adds(k2, (k1 - k2) as nat);
        lemma_pow2_unfold((k1 - k2) as nat);
        lemma_pow2_pos((k1 - k2 - 1) as nat);
        assert(m1 * kk2 <= m2 * kk1) by (nonlinear_arith)
            requires
                kk1 == kk2 * c,
                c >= 2,
                m1 <= b,
                b == 2 * a,
                a <= m2,
                kk2 > 0,
        {
            assert(m1 * kk2 <= (2 * a) * kk2);
            assert(m2 * (kk2 * c) >= a * (kk2 * c));
            assert(a * (kk2 * c) >= a * (kk2 * 2));
        }
    }
}

} // verus!
