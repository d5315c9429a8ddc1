//! How far double-precision results lie from the true ones, and that times of whole microseconds
//! come out exact nevertheless.
//!
//! Finite values are compared as multiples of the smallest positive value of the format.

use vstd::arithmetic::div_mod::{
    lemma_fundamental_div_mod, lemma_fundamental_div_mod_converse, lemma_mod_bound,
};
use vstd::arithmetic::power2::{
    lemma2_to64, lemma_pow2_adds, lemma_pow2_pos, lemma_pow2_strictly_increases, pow2,
};
use vstd::prelude::*;

use crate::binary64::{
    aligned, binade, is_whole, lemma_binade_exists, lemma_limit, lemma_quotient_step,
    lemma_rounded_wf, lemma_scales, lemma_small_whole, lesser, nearest_mantissa, nearest_part,
    nearest_whole, power_denominator, power_numerator, product, quotient, rounded,
    scaled_denominator, scaled_numerator, sum, truncated, whole_part, Double, EXPONENT_LEAST,
    MANTISSA_LEAST, MANTISSA_LIMIT,
};

verus! {

/// A finite value as a multiple of `2^-1074`.
pub open spec fn units(mantissa: u64, exponent: int) -> int {
    mantissa * pow2((exponent + 1074) as nat)
}

/// One as a multiple of `2^-1074`.
pub open spec fn one() -> int {
    pow2(1074) as int
}

/// Whether a value is finite, of this sign, and this multiple of `2^-1074` in magnitude.
pub open spec fn measures(x: Double, negative: bool, u: int) -> bool {
    &&& x.wf()
    &&& x matches Double::Finite { negative: s, mantissa, exponent }
    &&& s == negative
    &&& units(mantissa, exponent as int) == u
}

/// The magnitude of a difference, twice.
pub open spec fn twice_apart(a: int, b: int) -> int {
    if a < b {
        2 * (b - a)
    } else {
        2 * (a - b)
    }
}

/// A power of two as a fraction, scaled up.
proof fn lemma_scaled_power(g: int, c: nat)
    requires
        g + c >= 0,
    ensures
        power_numerator(g) * pow2(c) == power_denominator(g) * pow2((g + c) as nat),
        power_denominator(g) > 0,
        power_numerator(g) > 0,
{
    lemma_limit();
    if g > 0 {
        lemma_pow2_adds(g as nat, c);
        lemma_pow2_pos(g as nat);
    } else if g < 0 {
        lemma_pow2_adds((-g) as nat, (g + c) as nat);
        lemma_pow2_pos((-g) as nat);
    }
}

/// A mantissa chosen by rounding is at most half a step off.
proof fn lemma_step(n: int, d: int, e: int)
    requires
        n >= 0,
        d > 0,
    ensures
        twice_apart(
            nearest_mantissa(n, d, e) * scaled_denominator(d, e),
            scaled_numerator(n, e),
        ) <= scaled_denominator(d, e),
        quotient(n, d, e) * scaled_denominator(d, e) <= scaled_numerator(n, e),
{
    lemma_scales(n, d, e);
    let x = scaled_numerator(n, e);
    let y = scaled_denominator(d, e);
    let q = x / y;
    let r = x % y;
    lemma_fundamental_div_mod(x, y);
    lemma_mod_bound(x, y);
    assert(q * y == y * q) by (nonlinear_arith);
    assert((q + 1) * y == y * q + y) by (nonlinear_arith);
}

/// The terms of a fraction in steps of `2^e`, both scaled up to steps of `2^-1074`.
proof fn lemma_scaled_terms(n: int, d: int, e: int)
    requires
        n >= 0,
        d > 0,
        e >= EXPONENT_LEAST,
    ensures
        exists|f: int|
            #![trigger scaled_denominator(d, e) * f]
            f > 0 && scaled_denominator(d, e) * f == d * pow2((e + 1074) as nat)
                && scaled_numerator(n, e) * f == n * one(),
{
    lemma_limit();
    if e < 0 {
        let f = pow2((e + 1074) as nat) as int;
        lemma_pow2_pos((e + 1074) as nat);
        lemma_pow2_adds((-e) as nat, (e + 1074) as nat);
        let p = pow2((-e) as nat) as int;
        assert((n * p) * f == n * (p * f)) by (nonlinear_arith);
        assert(scaled_denominator(d, e) * f == d * f);
    } else {
        let f = one();
        lemma_pow2_pos(1074);
        lemma_pow2_adds(e as nat, 1074);
        let p = pow2(e as nat) as int;
        assert((d * p) * f == d * (p * f)) by (nonlinear_arith);
        assert(e == 0 ==> scaled_denominator(d, e) == d * p) by {
            if e == 0 {
                assert(d * 1 == d);
            }
        }
        assert(scaled_numerator(n, e) * f == n * one());
        assert(scaled_denominator(d, e) * f == d * pow2((e + 1074) as nat));
    }
}

/// A fraction below `2^j` is rounded by at most `2^(j - 54)`.
pub proof fn lemma_rounding_error(negative: bool, n: int, d: int, j: nat) -> (u: int)
    requires
        n >= 0,
        d > 0,
        j <= 60,
        n < d * pow2(j),
    ensures
        u >= 0,
        measures(rounded(negative, n, d), negative, u),
        twice_apart(u * d, n * one()) <= d * pow2(j + 1021),
{
    let e = binade(n, d);
    lemma_binade_exists(n, d);
    lemma_quotient_step(n, d, e);
    lemma_step(n, d, e);
    lemma_scaled_terms(n, d, e);
    lemma_scales(n, d, e);
    lemma_limit();
    let x = scaled_numerator(n, e);
    let y = scaled_denominator(d, e);
    let m = nearest_mantissa(n, d, e);
    let s = pow2((e + 1074) as nat) as int;
    let f = choose|f: int|
        #![trigger scaled_denominator(d, e) * f]
        f > 0 && scaled_denominator(d, e) * f == d * s && scaled_numerator(n, e) * f == n * one();
    assert(y * f == d * s);
    assert(x * f == n * one());
    // The exponent is small enough.
    assert(e <= j - 53) by {
        if e > j - 53 {
            assert(e > EXPONENT_LEAST);
            let q = quotient(n, d, e);
            assert(q >= MANTISSA_LEAST);
            assert(MANTISSA_LEAST * y <= x) by (nonlinear_arith)
                requires
                    q * y <= x,
                    q >= MANTISSA_LEAST,
                    y > 0,
            ;
            assert(MANTISSA_LEAST * (d * s) <= n * one()) by (nonlinear_arith)
                requires
                    MANTISSA_LEAST * y <= x,
                    y * f == d * s,
                    x * f == n * one(),
                    f > 0,
            ;
            lemma_pow2_pos(1074);
            let top = pow2(j) as int;
            assert(n * one() < (d * top) * one()) by (nonlinear_arith)
                requires
                    n < d * top,
                    one() > 0,
            ;
            lemma_pow2_adds(j, 1074);
            assert((d * top) * one() == d * (top * one())) by (nonlinear_arith);
            let all = pow2(j + 1074) as int;
            lemma_pow2_adds(52, (e + 1074) as nat);
            let low = pow2((52 + e + 1074) as nat) as int;
            assert(MANTISSA_LEAST * (d * s) == d * low) by (nonlinear_arith)
                requires
                    low == MANTISSA_LEAST * s,
            ;
            if 52 + e + 1074 > j + 1074 {
                lemma_pow2_strictly_increases(j + 1074, (52 + e + 1074) as nat);
            }
            assert(low >= all);
            assert(d * low >= d * all) by (nonlinear_arith)
                requires
                    low >= all,
                    d > 0,
            ;
        }
    }
    let u = m * s;
    lemma_pow2_pos((e + 1074) as nat);
    assert(u >= 0) by (nonlinear_arith)
        requires
            u == m * s,
            m >= 0,
            s > 0,
    ;
    assert(0 <= m <= MANTISSA_LIMIT);
    assert(measures(rounded(negative, n, d), negative, u));
    // The step, scaled up.
    assert(twice_apart((m * y) * f, x * f) <= y * f) by (nonlinear_arith)
        requires
            twice_apart(m * y, x) <= y,
            twice_apart(m * y, x) == if m * y < x {
                2 * (x - m * y)
            } else {
                2 * (m * y - x)
            },
            twice_apart((m * y) * f, x * f) == if (m * y) * f < x * f {
                2 * (x * f - (m * y) * f)
            } else {
                2 * ((m * y) * f - x * f)
            },
            f > 0,
    ;
    assert((m * y) * f == u * d) by (nonlinear_arith)
        requires
            y * f == d * s,
            u == m * s,
    ;
    let most = pow2(j + 1021) as int;
    if e + 1074 < j + 1021 {
        lemma_pow2_strictly_increases((e + 1074) as nat, j + 1021);
    }
    assert(d * s <= d * most) by (nonlinear_arith)
        requires
            s <= most,
            d > 0,
    ;
    u
}

/// A small whole number is that multiple of one.
pub proof fn lemma_whole_measures(x: Double, n: int)
    requires
        is_whole(x, n),
        x.wf(),
    ensures
        measures(x, false, n * one()),
{
    let e = x->exponent as int;
    let p = pow2((-e) as nat) as int;
    let s = pow2((e + 1074) as nat) as int;
    lemma_pow2_adds((-e) as nat, (e + 1074) as nat);
    assert((n * p) * s == n * (p * s)) by (nonlinear_arith);
}

/// An error over a denominator is one without it.
proof fn lemma_cancel(u: int, v: int, d: int, n: int, w: int, error: int)
    requires
        d > 0,
        twice_apart(u * d, n * w) <= d * error,
        n * w == d * v,
    ensures
        twice_apart(u, v) <= error,
{
    assert(twice_apart(u, v) <= error) by (nonlinear_arith)
        requires
            d > 0,
            twice_apart(u * d, d * v) <= d * error,
            twice_apart(u * d, d * v) == if u * d < d * v {
                2 * (d * v - u * d)
            } else {
                2 * (u * d - d * v)
            },
            twice_apart(u, v) == if u < v {
                2 * (v - u)
            } else {
                2 * (u - v)
            },
    ;
}

/// The sum of two values that are not negative, below `2^j`, is at most `2^(j - 54)` off.
pub proof fn lemma_sum_error(a: Double, b: Double, u: int, v: int, j: nat) -> (w: int)
    requires
        measures(a, false, u),
        measures(b, false, v),
        0 <= u,
        0 <= v,
        j <= 60,
        u + v < pow2(j) * one(),
    ensures
        w >= 0,
        measures(sum(a, b), false, w),
        twice_apart(w, u + v) <= pow2(j + 1021),
{
    let e = a->exponent as int;
    let f = b->exponent as int;
    let least = lesser(e, f);
    let x = aligned(false, a->mantissa, e, least);
    let y = aligned(false, b->mantissa, f, least);
    let total = x + y;
    let s = pow2((least + 1074) as nat) as int;
    lemma_pow2_pos((least + 1074) as nat);
    lemma_pow2_adds((e - least) as nat, (least + 1074) as nat);
    lemma_pow2_adds((f - least) as nat, (least + 1074) as nat);
    let m = a->mantissa as int;
    let k = b->mantissa as int;
    let p = pow2((e - least) as nat) as int;
    let q = pow2((f - least) as nat) as int;
    lemma_pow2_pos((e - least) as nat);
    lemma_pow2_pos((f - least) as nat);
    assert((m * p) * s == m * (p * s)) by (nonlinear_arith);
    assert((k * q) * s == k * (q * s)) by (nonlinear_arith);
    assert(x * s == u && y * s == v);
    assert(total * s == u + v) by (nonlinear_arith)
        requires
            total == x + y,
            x * s == u,
            y * s == v,
    ;
    assert(m * p >= 0 && k * q >= 0) by (nonlinear_arith)
        requires
            m >= 0,
            k >= 0,
            p > 0,
            q > 0,
    ;
    let n = total * power_numerator(least);
    let d = power_denominator(least);
    lemma_scaled_power(least, 1074);
    let num = power_numerator(least);
    assert(n >= 0) by (nonlinear_arith)
        requires
            n == total * num,
            total >= 0,
            num > 0,
    ;
    assert(n * one() == d * (u + v)) by (nonlinear_arith)
        requires
            n == total * num,
            num * one() == d * s,
            total * s == u + v,
    ;
    let top = pow2(j) as int;
    lemma_pow2_pos(1074);
    assert(n < d * top) by (nonlinear_arith)
        requires
            n * one() == d * (u + v),
            u + v < top * one(),
            d > 0,
            one() > 0,
    ;
    assert(sum(a, b) == rounded(false, n, d));
    let w = lemma_rounding_error(false, n, d, j);
    lemma_cancel(w, u + v, d, n, one(), pow2(j + 1021) as int);
    w
}

/// The product of a value and a small whole number, below `2^j`, is at most `2^(j - 54)` off.
pub proof fn lemma_product_error(
    a: Double,
    b: Double,
    negative: bool,
    u: int,
    k: int,
    j: nat,
) -> (w: int)
    requires
        measures(a, negative, u),
        is_whole(b, k),
        b.wf(),
        0 <= u,
        j <= 60,
        u * k < pow2(j) * one(),
    ensures
        w >= 0,
        measures(product(a, b), negative, w),
        twice_apart(w, u * k) <= pow2(j + 1021),
{
    let e = a->exponent as int;
    let f = b->exponent as int;
    let m = a->mantissa as int;
    let l = b->mantissa as int;
    lemma_whole_measures(b, k);
    let g = e + f;
    let num = power_numerator(g);
    let d = power_denominator(g);
    let n = m * l * num;
    lemma_scaled_power(g, 2148);
    let s = pow2((e + 1074) as nat) as int;
    let t = pow2((f + 1074) as nat) as int;
    let square = pow2(2148) as int;
    lemma_pow2_adds((e + 1074) as nat, (f + 1074) as nat);
    lemma_pow2_adds(1074, 1074);
    lemma_pow2_pos(1074);
    assert(num * square == d * (s * t));
    assert(m * s == u);
    assert(l * t == k * one());
    assert(n * square == d * (u * (k * one()))) by (nonlinear_arith)
        requires
            n == m * l * num,
            num * square == d * (s * t),
            m * s == u,
            l * t == k * one(),
    ;
    assert(n * one() == d * (u * k)) by (nonlinear_arith)
        requires
            n * square == d * (u * (k * one())),
            square == one() * one(),
            one() > 0,
    ;
    assert(n >= 0) by (nonlinear_arith)
        requires
            n == m * l * num,
            m >= 0,
            l >= 0,
            num > 0,
    ;
    let top = pow2(j) as int;
    assert(n < d * top) by (nonlinear_arith)
        requires
            n * one() == d * (u * k),
            u * k < top * one(),
            d > 0,
            one() > 0,
    ;
    assert(product(a, b) == rounded(negative, n, d));
    let w = lemma_rounding_error(negative, n, d, j);
    lemma_cancel(w, u * k, d, n, one(), pow2(j + 1021) as int);
    w
}

/// A value less than half from a whole number has that as its nearest.
pub proof fn lemma_nearest(x: Double, negative: bool, u: int, t: int)
    requires
        measures(x, negative, u),
        twice_apart(u, t * one()) < one(),
        0 <= t <= i64::MAX,
    ensures
        nearest_whole(x) == if negative {
            -t
        } else {
            t
        },
{
    let e = x->exponent as int;
    let m = x->mantissa as int;
    let num = power_numerator(e);
    let d = power_denominator(e);
    let n = m * num;
    lemma_scaled_power(e, 1074);
    lemma_pow2_pos(1074);
    let s = pow2((e + 1074) as nat) as int;
    assert(n * one() == d * u) by (nonlinear_arith)
        requires
            n == m * num,
            num * one() == d * s,
            u == m * s,
    ;
    let rest = 2 * n + d - t * (2 * d);
    assert(0 <= rest < 2 * d) by (nonlinear_arith)
        requires
            rest == 2 * n + d - t * (2 * d),
            n * one() == d * u,
            2 * (u - t * one()) < one(),
            2 * (t * one() - u) < one(),
            one() > 0,
            d > 0,
    ;
    lemma_fundamental_div_mod_converse(2 * n + d, 2 * d, t, rest);
    assert(nearest_part(x->mantissa, e) == t);
}

/// A value near a whole number of millionths, below `2^30` and out by no more than two roundings,
/// comes out as that number of millionths.
proof fn lemma_near_millionths(x: Double, negative: bool, u: int, n: int, d: int, c: int)
    requires
        measures(x, negative, u),
        u >= 0,
        n >= 0,
        d > 0,
        c * d == 1_000_000,
        n < d * 0x4000_0000,
        twice_apart(u * d, n * one()) <= d * (pow2(1051) + pow2(1052)),
    ensures
        nearest_whole(product(x, rounded(false, 1_000_000, 1))) == if negative {
            -(n * c)
        } else {
            n * c
        },
{
    lemma2_to64();
    let b = pow2(1051) as int;
    lemma_pow2_pos(1051);
    lemma_pow2_adds(1051, 1);
    lemma_pow2_adds(1051, 21);
    lemma_pow2_adds(1051, 23);
    assert(one() == 0x80_0000 * b);
    assert(d * (pow2(1051) + pow2(1052)) == 3 * (d * b)) by (nonlinear_arith)
        requires
            pow2(1051) == b,
            pow2(1052) == 2 * b,
    ;
    assert(u < 0x4000_0001 * one()) by (nonlinear_arith)
        requires
            2 * (u * d - n * one()) <= 3 * (d * b),
            one() == 0x80_0000 * b,
            n < d * 0x4000_0000,
            d > 0,
            b > 0,
    ;
    lemma_pow2_adds(32, 19);
    assert(pow2(51) == 0x8_0000_0000_0000);
    lemma_small_whole(1_000_000);
    lemma_rounded_wf(false, 1_000_000, 1);
    let million = rounded(false, 1_000_000, 1);
    let w = lemma_product_error(x, million, negative, u, 1_000_000, 51);
    let t = n * c;
    assert(t * d == n * 1_000_000) by (nonlinear_arith)
        requires
            t == n * c,
            c * d == 1_000_000,
    ;
    assert(0 <= t < 1_000_000 * 0x4000_0000) by (nonlinear_arith)
        requires
            t == n * c,
            c * d == 1_000_000,
            d > 0,
            0 <= n < d * 0x4000_0000,
    ;
    assert(2 * (u * 1_000_000 - t * one()) <= 3_000_000 * b && 2 * (t * one() - u * 1_000_000)
        <= 3_000_000 * b) by (nonlinear_arith)
        requires
            2 * (u * d - n * one()) <= 3 * (d * b),
            2 * (n * one() - u * d) <= 3 * (d * b),
            t * d == n * 1_000_000,
            d > 0,
    ;
    assert(twice_apart(w, t * one()) < one());
    lemma_nearest(product(x, million), negative, w, t);
}

/// The value nearest to a number of millionths, below `2^30`, comes out as that number of
/// millionths. The number is given as a fraction, of which `c` is what a unit above the bar counts
/// for.
pub proof fn lemma_exact_millionths(negative: bool, n: int, d: int, c: int)
    requires
        n >= 0,
        d > 0,
        c * d == 1_000_000,
        n < d * 0x4000_0000,
    ensures
        nearest_whole(product(rounded(negative, n, d), rounded(false, 1_000_000, 1)))
            == if negative {
            -(n * c)
        } else {
            n * c
        },
{
    lemma2_to64();
    let u = lemma_rounding_error(negative, n, d, 30);
    let b = pow2(1051) as int;
    lemma_pow2_pos(1051);
    lemma_pow2_pos(1052);
    assert(d * b <= d * (b + pow2(1052))) by (nonlinear_arith)
        requires
            d > 0,
            pow2(1052) > 0,
    ;
    lemma_near_millionths(rounded(negative, n, d), negative, u, n, d, c);
}

/// So does the sum of a whole number and the value nearest to a number of millionths.
pub proof fn lemma_exact_sum_of_millionths(a: Double, whole: int, n: int, d: int, c: int)
    requires
        is_whole(a, whole),
        a.wf(),
        whole >= 0,
        n >= 0,
        d > 0,
        c * d == 1_000_000,
        whole * d + n < d * 0x4000_0000,
    ensures
        nearest_whole(product(sum(a, rounded(false, n, d)), rounded(false, 1_000_000, 1))) == whole
            * 1_000_000 + n * c,
{
    lemma2_to64();
    assert(n < d * 0x4000_0000) by (nonlinear_arith)
        requires
            whole >= 0,
            d > 0,
            whole * d + n < d * 0x4000_0000,
    ;
    let s = rounded(false, n, d);
    let v = lemma_rounding_error(false, n, d, 30);
    lemma_whole_measures(a, whole);
    let b = pow2(1051) as int;
    lemma_pow2_pos(1051);
    lemma_pow2_adds(1051, 1);
    lemma_pow2_adds(1051, 23);
    let u = whole * one();
    let all = whole * d + n;
    assert(u >= 0) by (nonlinear_arith)
        requires
            u == whole * one(),
            whole >= 0,
            one() == 0x80_0000 * b,
            b > 0,
    ;
    assert((u + v) * d - all * one() == v * d - n * one()) by (nonlinear_arith)
        requires
            u == whole * one(),
            all == whole * d + n,
    ;
    assert(u + v < 0x8000_0000 * one()) by (nonlinear_arith)
        requires
            2 * ((u + v) * d - all * one()) <= d * b,
            all < d * 0x4000_0000,
            one() == 0x80_0000 * b,
            d > 0,
            b > 0,
    ;
    let w = lemma_sum_error(a, s, u, v, 31);
    assert(twice_apart(w * d, all * one()) <= d * (b + pow2(1052))) by {
        assert(2 * (w * d - all * one()) <= d * (b + 2 * b) && 2 * (all * one() - w * d) <= d * (b
            + 2 * b)) by (nonlinear_arith)
            requires
                2 * ((u + v) * d - all * one()) <= d * b,
                2 * (all * one() - (u + v) * d) <= d * b,
                2 * (w - (u + v)) <= 2 * b,
                2 * ((u + v) - w) <= 2 * b,
                d > 0,
        ;
    }
    lemma_near_millionths(sum(a, s), false, w, all, d, c);
    assert(all * c == whole * 1_000_000 + n * c) by (nonlinear_arith)
        requires
            all == whole * d + n,
            c * d == 1_000_000,
    ;
}

/// A value without its fraction lies less than one below it.
pub proof fn lemma_whole_part_bounds(x: Double, u: int)
    requires
        measures(x, false, u),
        u >= 0,
        u < 0x4000_0000_0000_0000 * one(),
    ensures
        truncated(x) * one() <= u < (truncated(x) + 1) * one(),
{
    let e = x->exponent as int;
    let m = x->mantissa as int;
    let num = power_numerator(e);
    let d = power_denominator(e);
    let n = m * num;
    lemma_scaled_power(e, 1074);
    lemma_pow2_pos(1074);
    let s = pow2((e + 1074) as nat) as int;
    assert(n * one() == d * u) by (nonlinear_arith)
        requires
            n == m * num,
            num * one() == d * s,
            u == m * s,
    ;
    let q = n / d;
    lemma_fundamental_div_mod(n, d);
    lemma_mod_bound(n, d);
    assert(q * one() <= u < (q + 1) * one()) by (nonlinear_arith)
        requires
            n * one() == d * u,
            n == d * q + n % d,
            0 <= n % d < d,
            one() > 0,
            d > 0,
    ;
    assert(q < 0x4000_0000_0000_0000) by (nonlinear_arith)
        requires
            q * one() <= u,
            u < 0x4000_0000_0000_0000 * one(),
            one() > 0,
    ;
    assert(whole_part(x->mantissa, e) == q);
}

} // verus!
