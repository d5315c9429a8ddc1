//! Binary double-precision arithmetic on integers.
//!
//! Times are written as decimal seconds and turned into microseconds with double-precision
//! arithmetic. The module states that arithmetic exactly: every result is the value of the format
//! nearest to the true one, ties going to the even mantissa.

use vstd::arithmetic::div_mod::{
    lemma_div_denominator, lemma_div_is_ordered, lemma_div_pos_is_pos, lemma_fundamental_div_mod,
    lemma_fundamental_div_mod_converse, lemma_mod_bound,
};
use vstd::arithmetic::power2::{
    lemma2_to64, lemma_pow2_adds, lemma_pow2_pos, lemma_pow2_unfold, pow2,
};
use vstd::prelude::*;

use crate::bignum::{lemma_nonnegative, BigNat};

verus! {

/// One more than the largest mantissa of the format, 2^53.
pub const MANTISSA_LIMIT: u64 = 0x20_0000_0000_0000;

/// The smallest mantissa of a normal value, 2^52.
pub const MANTISSA_LEAST: u64 = 0x10_0000_0000_0000;

/// The exponent of the smallest positive value.
pub const EXPONENT_LEAST: i32 = -1074;

/// The largest exponent of a mantissa of 53 bits.
pub const EXPONENT_MOST: i32 = 971;

/// A double-precision value. A finite one is `mantissa * 2^exponent`, not necessarily with the
/// longest mantissa.
#[derive(Clone, Copy, Debug)]
pub enum Double {
    NotANumber,
    Infinite { negative: bool },
    Finite { negative: bool, mantissa: u64, exponent: i32 },
}

/// `n`, scaled up by `2^-e` where `e` is negative.
pub open spec fn scaled_numerator(n: int, e: int) -> int {
    if e < 0 {
        n * pow2((-e) as nat)
    } else {
        n
    }
}

/// `d`, scaled up by `2^e` where `e` is positive.
pub open spec fn scaled_denominator(d: int, e: int) -> int {
    if e > 0 {
        d * pow2(e as nat)
    } else {
        d
    }
}

/// `n / (d * 2^e)`, rounded down.
pub open spec fn quotient(n: int, d: int, e: int) -> int {
    scaled_numerator(n, e) / scaled_denominator(d, e)
}

/// What rounding down leaves of `n / (d * 2^e)`, over `scaled_denominator(d, e)`.
pub open spec fn remainder(n: int, d: int, e: int) -> int {
    scaled_numerator(n, e) % scaled_denominator(d, e)
}

/// Whether `e` is the exponent of the values of the format next to `n / d`, were there no largest
/// one.
pub open spec fn in_binade(n: int, d: int, e: int) -> bool {
    &&& EXPONENT_LEAST <= e
    &&& quotient(n, d, e) < MANTISSA_LIMIT
    &&& e > EXPONENT_LEAST ==> quotient(n, d, e) >= MANTISSA_LEAST
}

/// The exponent of the values of the format next to `n / d`.
pub open spec fn binade(n: int, d: int) -> int {
    choose|e: int| in_binade(n, d, e)
}

/// The mantissa nearest to `n / (d * 2^e)`; of two equally near, the even one.
pub open spec fn nearest_mantissa(n: int, d: int, e: int) -> int {
    let q = quotient(n, d, e);
    let twice = 2 * remainder(n, d, e);
    let whole = scaled_denominator(d, e);
    if twice < whole || (twice == whole && q % 2 == 0) {
        q
    } else {
        q + 1
    }
}

/// The value of the format nearest to `n / d`, infinite beyond the largest finite one.
pub open spec fn rounded(negative: bool, n: int, d: int) -> Double {
    let e = binade(n, d);
    let m = nearest_mantissa(n, d, e);
    if e > EXPONENT_MOST || (e == EXPONENT_MOST && m == MANTISSA_LIMIT) {
        Double::Infinite { negative }
    } else {
        Double::Finite { negative, mantissa: m as u64, exponent: e as i32 }
    }
}

impl Double {
    /// Whether a finite value lies within the format's range.
    pub open spec fn wf(self) -> bool {
        match self {
            Double::Finite { negative, mantissa, exponent } => mantissa <= MANTISSA_LIMIT
                && EXPONENT_LEAST <= exponent <= EXPONENT_MOST,
            _ => true,
        }
    }
}

/// `2^e` as a fraction: the numerator.
pub open spec fn power_numerator(e: int) -> int {
    if e > 0 {
        pow2(e as nat) as int
    } else {
        1
    }
}

/// `2^e` as a fraction: the denominator.
pub open spec fn power_denominator(e: int) -> int {
    if e < 0 {
        pow2((-e) as nat) as int
    } else {
        1
    }
}

/// The product of two values.
pub open spec fn product(a: Double, b: Double) -> Double {
    match (a, b) {
        (Double::NotANumber, _) => Double::NotANumber,
        (_, Double::NotANumber) => Double::NotANumber,
        (Double::Infinite { negative: s }, Double::Infinite { negative: t }) => Double::Infinite {
            negative: s != t,
        },
        (
            Double::Infinite { negative: s },
            Double::Finite { negative: t, mantissa, exponent },
        ) => infinite_times(s != t, mantissa),
        (
            Double::Finite { negative: s, mantissa, exponent },
            Double::Infinite { negative: t },
        ) => infinite_times(s != t, mantissa),
        (
            Double::Finite { negative: s, mantissa: m, exponent: e },
            Double::Finite { negative: t, mantissa: k, exponent: f },
        ) => rounded(s != t, m * k * power_numerator(e + f), power_denominator(e + f)),
    }
}

/// An infinite value times one of this mantissa.
pub open spec fn infinite_times(negative: bool, mantissa: u64) -> Double {
    if mantissa == 0 {
        Double::NotANumber
    } else {
        Double::Infinite { negative }
    }
}

/// A finite value as a multiple of `2^least`, for a `least` up to its exponent.
pub open spec fn aligned(negative: bool, mantissa: u64, exponent: int, least: int) -> int {
    let magnitude = mantissa * pow2((exponent - least) as nat);
    if negative {
        -magnitude
    } else {
        magnitude
    }
}

/// The smaller of two exponents.
pub open spec fn lesser(a: int, b: int) -> int {
    if a <= b {
        a
    } else {
        b
    }
}

/// The sum of two values.
pub open spec fn sum(a: Double, b: Double) -> Double {
    match (a, b) {
        (Double::NotANumber, _) => Double::NotANumber,
        (_, Double::NotANumber) => Double::NotANumber,
        (Double::Infinite { negative: s }, Double::Infinite { negative: t }) => if s == t {
            a
        } else {
            Double::NotANumber
        },
        (Double::Infinite { .. }, _) => a,
        (_, Double::Infinite { .. }) => b,
        (
            Double::Finite { negative: s, mantissa: m, exponent: e },
            Double::Finite { negative: t, mantissa: k, exponent: f },
        ) => {
            let least = lesser(e as int, f as int);
            let total = aligned(s, m, e as int, least) + aligned(t, k, f as int, least);
            let negative = total < 0 || (total == 0 && s && t);
            let magnitude = if total < 0 {
                -total
            } else {
                total
            };
            rounded(negative, magnitude * power_numerator(least), power_denominator(least))
        },
    }
}

/// The whole part of a finite value's magnitude.
pub open spec fn whole_part(mantissa: u64, exponent: int) -> int {
    (mantissa * power_numerator(exponent)) / power_denominator(exponent)
}

/// A finite value's magnitude as the nearest whole number; of two equally near, the larger one.
pub open spec fn nearest_part(mantissa: u64, exponent: int) -> int {
    let n = mantissa * power_numerator(exponent);
    let d = power_denominator(exponent);
    (2 * n + d) / (2 * d)
}

/// A magnitude with its sign, held within the range of a 64-bit integer.
pub open spec fn within_i64(negative: bool, magnitude: int) -> int {
    if negative {
        if -magnitude < i64::MIN {
            i64::MIN as int
        } else {
            -magnitude
        }
    } else if magnitude > i64::MAX {
        i64::MAX as int
    } else {
        magnitude
    }
}

/// A value without its fraction, held within the range of a 64-bit integer; zero for what is not
/// a number.
pub open spec fn truncated(a: Double) -> int {
    match a {
        Double::NotANumber => 0,
        Double::Infinite { negative } => if negative {
            i64::MIN as int
        } else {
            i64::MAX as int
        },
        Double::Finite { negative, mantissa, exponent } => within_i64(
            negative,
            whole_part(mantissa, exponent as int),
        ),
    }
}

/// The whole number nearest to a value, of two equally near the one further from zero, held within
/// the range of a 64-bit integer; zero for what is not a number.
pub open spec fn nearest_whole(a: Double) -> int {
    match a {
        Double::NotANumber => 0,
        Double::Infinite { negative } => if negative {
            i64::MIN as int
        } else {
            i64::MAX as int
        },
        Double::Finite { negative, mantissa, exponent } => within_i64(
            negative,
            nearest_part(mantissa, exponent as int),
        ),
    }
}

/// The terms of a fraction in steps of `2^e`, and in steps twice as large.
pub proof fn lemma_scales(n: int, d: int, e: int)
    requires
        n >= 0,
        d > 0,
    ensures
        scaled_numerator(n, e) >= 0,
        scaled_denominator(d, e) > 0,
        e < 0 ==> scaled_numerator(n, e) == 2 * scaled_numerator(n, e + 1),
        e >= 0 ==> scaled_numerator(n, e) == scaled_numerator(n, e + 1),
        e >= 0 ==> scaled_denominator(d, e + 1) == 2 * scaled_denominator(d, e),
        e < 0 ==> scaled_denominator(d, e + 1) == scaled_denominator(d, e),
{
    lemma2_to64();
    if e < 0 {
        let k = (-e) as nat;
        lemma_pow2_unfold(k);
        lemma_pow2_pos(k);
        let p = pow2((k - 1) as nat) as int;
        assert(n * (2 * p) == 2 * (n * p)) by (nonlinear_arith);
        assert(p == 1 ==> n * p == n) by (nonlinear_arith);
        assert(n * pow2(k) >= 0) by (nonlinear_arith)
            requires
                n >= 0,
                pow2(k) > 0,
        ;
    } else {
        let k = e as nat;
        lemma_pow2_unfold(k + 1);
        lemma_pow2_pos(k);
        let p = pow2(k) as int;
        assert(d * (2 * p) == 2 * (d * p)) by (nonlinear_arith);
        assert(p == 1 ==> d * p == d) by (nonlinear_arith);
        assert(d * p > 0) by (nonlinear_arith)
            requires
                d > 0,
                p > 0,
        ;
    }
}

/// Raising the exponent by one halves the quotient.
pub proof fn lemma_quotient_step(n: int, d: int, e: int)
    requires
        n >= 0,
        d > 0,
    ensures
        quotient(n, d, e + 1) == quotient(n, d, e) / 2,
        quotient(n, d, e) >= 0,
{
    lemma_scales(n, d, e);
    lemma_scales(n, d, e + 1);
    let x = scaled_numerator(n, e);
    let y = scaled_denominator(d, e);
    assert(x / y >= 0) by (nonlinear_arith)
        requires
            x >= 0,
            y > 0,
    ;
    lemma_div_denominator(x, y, 2);
    if e < 0 {
        let half = scaled_numerator(n, e + 1);
        assert((2 * half) / (y * 2) == half / y) by {
            lemma_div_denominator(2 * half, 2, y);
            assert((2 * half) / 2 == half);
            assert(2 * y == y * 2);
        }
    } else {
        assert(scaled_denominator(d, e + 1) == y * 2);
    }
}

proof fn lemma_quotient_below(n: int, d: int, e: int, f: int)
    requires
        n >= 0,
        d > 0,
        e < f,
    ensures
        quotient(n, d, e) >= 2 * quotient(n, d, f),
        quotient(n, d, f) >= 0,
    decreases f - e,
{
    lemma_quotient_step(n, d, f - 1);
    lemma_quotient_step(n, d, f);
    if e < f - 1 {
        lemma_quotient_below(n, d, e, f - 1);
    }
}

/// A positive fraction has one exponent in the format.
proof fn lemma_binade_unique(n: int, d: int, e: int)
    requires
        n >= 0,
        d > 0,
        in_binade(n, d, e),
    ensures
        binade(n, d) == e,
{
    let f = binade(n, d);
    assert(in_binade(n, d, f));
    if e < f {
        lemma_quotient_below(n, d, e, f);
    } else if f < e {
        lemma_quotient_below(n, d, f, e);
    }
}

/// Where the quotient is large enough, the exponent is at least this one.
proof fn lemma_binade_at_least(n: int, d: int, e: int)
    requires
        n >= 0,
        d > 0,
        e >= EXPONENT_LEAST,
        quotient(n, d, e) >= MANTISSA_LEAST,
    ensures
        binade(n, d) >= e,
        in_binade(n, d, binade(n, d)),
    decreases quotient(n, d, e),
{
    if quotient(n, d, e) < MANTISSA_LIMIT {
        lemma_binade_unique(n, d, e);
    } else {
        lemma_quotient_step(n, d, e);
        lemma_binade_at_least(n, d, e + 1);
    }
}

/// Every fraction has an exponent in the format.
pub proof fn lemma_binade_exists(n: int, d: int)
    requires
        n >= 0,
        d > 0,
    ensures
        in_binade(n, d, binade(n, d)),
{
    let e = EXPONENT_LEAST as int;
    if quotient(n, d, e) < MANTISSA_LIMIT {
        lemma_binade_unique(n, d, e);
    } else {
        lemma_binade_at_least(n, d, e);
    }
}

/// Rounding stays within the format.
pub proof fn lemma_rounded_wf(negative: bool, n: int, d: int)
    requires
        n >= 0,
        d > 0,
    ensures
        rounded(negative, n, d).wf(),
{
    lemma_binade_exists(n, d);
    lemma_quotient_step(n, d, binade(n, d));
}

/// Copies a number.
fn copy(x: &BigNat) -> (r: BigNat)
    ensures
        r@ == x@,
{
    x.mul_add(1, 0)
}

/// `x * 2^52`.
fn times_mantissa_least(x: &BigNat) -> (r: BigNat)
    ensures
        r@ == x@ * MANTISSA_LEAST,
{
    let a = x.mul_add(0x8000_0000, 0);
    let b = a.mul_add(0x20_0000, 0);
    assert(x@ * 0x8000_0000 * 0x20_0000 == x@ * MANTISSA_LEAST) by (nonlinear_arith);
    b
}

/// The value of the format nearest to `n / d`.
#[verifier::rlimit(40)]
pub fn round(negative: bool, n: &BigNat, d: &BigNat) -> (r: Double)
    requires
        d@ > 0,
    ensures
        r == rounded(negative, n@, d@),
        r.wf(),
{
    proof {
        lemma_nonnegative(*n);
        lemma_binade_exists(n@, d@);
        lemma_rounded_wf(negative, n@, d@);
        lemma_limit();
    }
    if BigNat::from_u64(0).checked_minus(n).is_some() {
        proof {
            assert(0 * pow2(1075) == 0);
            lemma_rounded_near_zero(negative, 0, d@);
        }
        return Double::Finite { negative, mantissa: 0, exponent: EXPONENT_LEAST };
    }
    let mut num = copy(n);
    let mut half = times_mantissa_least(d);
    let mut e: i32 = 0;
    let mut top = half.doubled();
    let mut large: bool = num.checked_minus(&top).is_some();
    while large && e <= EXPONENT_MOST
        invariant
            n@ >= 0,
            d@ > 0,
            num@ == n@,
            0 <= e <= EXPONENT_MOST + 1,
            half@ == scaled_denominator(d@, e as int) * MANTISSA_LEAST,
            top@ == 2 * half@,
            large == (num@ >= top@),
            e > 0 ==> num@ >= half@,
        decreases EXPONENT_MOST + 1 - e,
    {
        proof {
            lemma_scales(n@, d@, e as int);
            let y = scaled_denominator(d@, e as int);
            assert((2 * y) * MANTISSA_LEAST == 2 * (y * MANTISSA_LEAST)) by (nonlinear_arith);
        }
        half = top;
        top = half.doubled();
        e = e + 1;
        large = num.checked_minus(&top).is_some();
    }
    proof {
        lemma_scales(n@, d@, e as int);
    }
    if e > EXPONENT_MOST {
        proof {
            lemma_quotient_at_least(n@, d@, e as int, MANTISSA_LEAST as int);
            lemma_binade_at_least(n@, d@, e as int);
        }
        return Double::Infinite { negative };
    }
    let mut small: bool = half.checked_minus(&num).is_some();
    let mut equal: bool = num.checked_minus(&half).is_some();
    while small && !equal && e > EXPONENT_LEAST
        invariant
            n@ >= 0,
            d@ > 0,
            EXPONENT_LEAST <= e <= EXPONENT_MOST,
            num@ == scaled_numerator(n@, e as int),
            half@ == scaled_denominator(d@, e as int) * MANTISSA_LEAST,
            num@ < 2 * half@,
            small == (half@ >= num@),
            equal == (num@ >= half@),
            e > 0 ==> num@ >= half@,
        decreases e - EXPONENT_LEAST,
    {
        proof {
            lemma_scales(n@, d@, e - 1);
        }
        num = num.doubled();
        e = e - 1;
        small = half.checked_minus(&num).is_some();
        equal = num.checked_minus(&half).is_some();
    }
    let ghost whole = scaled_denominator(d@, e as int);
    proof {
        lemma_scales(n@, d@, e as int);
        assert(half@ == whole * MANTISSA_LEAST);
        assert(half@ > 0) by (nonlinear_arith)
            requires
                half@ == whole * MANTISSA_LEAST,
                whole > 0,
        ;
        if num@ >= half@ {
            lemma_quotient_at_least(n@, d@, e as int, MANTISSA_LEAST as int);
        }
    }
    let mut rest = copy(&num);
    let mut q: u64 = 0;
    let mut i: u32 = 0;
    while i < 53
        invariant
            i <= 53,
            half@ > 0,
            0 <= rest@ < 2 * half@,
            q < pow2(i as nat),
            num@ * pow2(i as nat) == q * (2 * half@) + rest@,
            pow2(53) == MANTISSA_LIMIT,
        decreases 53 - i,
    {
        proof {
            lemma_pow2_unfold((i + 1) as nat);
            let p = pow2(i as nat) as int;
            assert(num@ * (2 * p) == 2 * (num@ * p)) by (nonlinear_arith);
            assert((2 * q) * (2 * half@) == 2 * (q * (2 * half@))) by (nonlinear_arith);
            assert((2 * q + 1) * (2 * half@) == 2 * (q * (2 * half@)) + 2 * half@)
                by (nonlinear_arith);
            lemma_pow2_at_most_limit((i + 1) as nat);
        }
        match rest.checked_minus(&half) {
            Some(less) => {
                rest = less.doubled();
                q = 2 * q + 1;
            },
            None => {
                rest = rest.doubled();
                q = 2 * q;
            },
        }
        i = i + 1;
    }
    let below: bool = half.checked_minus(&rest).is_some();
    let above: bool = rest.checked_minus(&half).is_some();
    proof {
        let limit = MANTISSA_LIMIT as int;
        assert(2 * half@ == whole * limit) by (nonlinear_arith)
            requires
                half@ == whole * MANTISSA_LEAST,
                limit == 2 * MANTISSA_LEAST,
        ;
        let x = num@;
        // x * limit == q * (whole * limit) + rest, hence rest is a multiple of limit.
        let left = x - q * whole;
        assert(left * limit == rest@) by (nonlinear_arith)
            requires
                left == x - q * whole,
                x * limit == q * (whole * limit) + rest@,
        ;
        assert(0 <= left < whole) by (nonlinear_arith)
            requires
                left * limit == rest@,
                0 <= rest@ < whole * limit,
                limit > 0,
        ;
        assert(x == q * whole + left);
        lemma_fundamental_div_mod_converse(x, whole, q as int, left);
        assert(quotient(n@, d@, e as int) == q);
        assert(remainder(n@, d@, e as int) == left);
        assert((2 * left < whole) == (rest@ < half@)) by (nonlinear_arith)
            requires
                left * limit == rest@,
                2 * half@ == whole * limit,
                limit > 0,
        ;
        assert((2 * left == whole) == (rest@ == half@)) by (nonlinear_arith)
            requires
                left * limit == rest@,
                2 * half@ == whole * limit,
                limit > 0,
        ;
        assert(in_binade(n@, d@, e as int));
        lemma_binade_unique(n@, d@, e as int);
    }
    let m: u64 = if !above || (below && q % 2 == 0) {
        q
    } else {
        q + 1
    };
    if e == EXPONENT_MOST && m == MANTISSA_LIMIT {
        Double::Infinite { negative }
    } else {
        Double::Finite { negative, mantissa: m, exponent: e }
    }
}

/// `x * 2^count`.
pub fn shifted(x: &BigNat, count: u32) -> (r: BigNat)
    ensures
        r@ == x@ * pow2(count as nat),
{
    let mut r = copy(x);
    let mut i: u32 = 0;
    proof {
        lemma2_to64();
        assert(x@ * 1 == x@) by (nonlinear_arith);
    }
    while count - i >= 31
        invariant
            i <= count,
            r@ == x@ * pow2(i as nat),
        decreases count - i,
    {
        proof {
            lemma2_to64();
            lemma_pow2_adds(i as nat, 31);
            let p = pow2(i as nat) as int;
            assert(x@ * (p * 0x8000_0000) == (x@ * p) * 0x8000_0000) by (nonlinear_arith);
        }
        r = r.mul_add(0x8000_0000, 0);
        i = i + 31;
    }
    while i < count
        invariant
            i <= count,
            r@ == x@ * pow2(i as nat),
        decreases count - i,
    {
        proof {
            lemma_pow2_unfold((i + 1) as nat);
            let p = pow2(i as nat) as int;
            assert(x@ * (2 * p) == 2 * (x@ * p)) by (nonlinear_arith);
        }
        r = r.doubled();
        i = i + 1;
    }
    r
}

/// `x * k`.
fn times(x: &BigNat, k: u64) -> (r: BigNat)
    ensures
        r@ == x@ * k,
{
    let high: u32 = (k / 0x1_0000_0000) as u32;
    let low: u32 = (k % 0x1_0000_0000) as u32;
    let upper = x.mul_add(high, 0).mul_add(0x1_0000, 0).mul_add(0x1_0000, 0);
    let lower = x.mul_add(low, 0);
    assert(x@ * high * 0x1_0000 * 0x1_0000 + x@ * low == x@ * k) by (nonlinear_arith)
        requires
            k == high * 0x1_0000_0000 + low,
    ;
    upper.plus(&lower)
}

/// The value of the format nearest to `x * 2^e`.
fn round_scaled(negative: bool, x: &BigNat, e: i32) -> (r: Double)
    requires
        -10000 < e < 10000,
    ensures
        r == rounded(negative, x@ * power_numerator(e as int), power_denominator(e as int)),
        r.wf(),
{
    let one = BigNat::from_u64(1);
    assert(x@ * 1 == x@) by (nonlinear_arith);
    if e > 0 {
        round(negative, &shifted(x, e as u32), &one)
    } else if e < 0 {
        let count: u32 = (-e) as u32;
        proof {
            lemma_pow2_pos(count as nat);
            assert(1 * pow2(count as nat) == pow2(count as nat));
        }
        round(negative, x, &shifted(&one, count))
    } else {
        round(negative, x, &one)
    }
}

/// The product of two values.
pub fn multiply(a: Double, b: Double) -> (r: Double)
    requires
        a.wf(),
        b.wf(),
    ensures
        r == product(a, b),
        r.wf(),
{
    match (a, b) {
        (Double::NotANumber, _) => Double::NotANumber,
        (_, Double::NotANumber) => Double::NotANumber,
        (Double::Infinite { negative: s }, Double::Infinite { negative: t }) => Double::Infinite {
            negative: s != t,
        },
        (Double::Infinite { negative: s }, Double::Finite { negative: t, mantissa, exponent: _ })
        | (
            Double::Finite { negative: s, mantissa, exponent: _ },
            Double::Infinite { negative: t },
        ) => if mantissa == 0 {
            Double::NotANumber
        } else {
            Double::Infinite { negative: s != t }
        },
        (
            Double::Finite { negative: s, mantissa: m, exponent: e },
            Double::Finite { negative: t, mantissa: k, exponent: f },
        ) => {
            let whole = times(&BigNat::from_u64(m), k);
            round_scaled(s != t, &whole, e + f)
        },
    }
}

/// The sum of two values.
pub fn plus(a: Double, b: Double) -> (r: Double)
    requires
        a.wf(),
        b.wf(),
    ensures
        r == sum(a, b),
        r.wf(),
{
    match (a, b) {
        (Double::NotANumber, _) => Double::NotANumber,
        (_, Double::NotANumber) => Double::NotANumber,
        (Double::Infinite { negative: s }, Double::Infinite { negative: t }) => if s == t {
            a
        } else {
            Double::NotANumber
        },
        (Double::Infinite { negative: _ }, Double::Finite { .. }) => a,
        (Double::Finite { .. }, Double::Infinite { negative: _ }) => b,
        (
            Double::Finite { negative: s, mantissa: m, exponent: e },
            Double::Finite { negative: t, mantissa: k, exponent: f },
        ) => {
            let least: i32 = if e <= f {
                e
            } else {
                f
            };
            let x = shifted(&BigNat::from_u64(m), (e - least) as u32);
            let y = shifted(&BigNat::from_u64(k), (f - least) as u32);
            proof {
                lemma_nonnegative(x);
                lemma_nonnegative(y);
            }
            if s == t {
                let total = x.plus(&y);
                proof {
                    lemma_nonnegative(total);
                    if total@ == 0 && s {
                        assert(x@ == 0 && y@ == 0);
                    }
                }
                round_scaled(s, &total, least)
            } else {
                match x.checked_minus(&y) {
                    Some(total) => {
                        let zero: bool = y.checked_minus(&x).is_some();
                        round_scaled(s && !zero, &total, least)
                    },
                    None => {
                        match y.checked_minus(&x) {
                            Some(total) => round_scaled(t, &total, least),
                            None => Double::NotANumber,
                        }
                    },
                }
            }
        },
    }
}

/// The whole part of a finite value's magnitude, or `limit` where it is not below that.
fn whole_up_to(mantissa: u64, exponent: i32, limit: u64) -> (r: u64)
    requires
        limit >= 1,
        limit <= 0x8000_0000_0000_0000,
        -2000 < exponent < 2000,
    ensures
        r == if whole_part(mantissa, exponent as int) < limit {
            whole_part(mantissa, exponent as int)
        } else {
            limit as int
        },
{
    let mut x: u64 = mantissa;
    let mut i: i32 = 0;
    proof {
        lemma2_to64();
        assert(mantissa * 1 == mantissa) by (nonlinear_arith);
    }
    if exponent >= 0 {
        while i < exponent && x < limit
            invariant
                0 <= i <= exponent,
                limit <= 0x8000_0000_0000_0000,
                x == mantissa * pow2(i as nat),
            decreases exponent - i,
        {
            proof {
                lemma_pow2_unfold((i + 1) as nat);
                let p = pow2(i as nat) as int;
                assert(mantissa * (2 * p) == 2 * (mantissa * p)) by (nonlinear_arith);
            }
            x = x * 2;
            i = i + 1;
        }
        proof {
            assert(mantissa * power_numerator(exponent as int) == mantissa * pow2(exponent as nat));
            if i < exponent {
                let a = pow2(i as nat) as int;
                let b = pow2((exponent - i) as nat) as int;
                lemma_pow2_adds(i as nat, (exponent - i) as nat);
                lemma_pow2_pos((exponent - i) as nat);
                lemma_pow2_pos(i as nat);
                assert(mantissa * (a * b) >= mantissa * a) by (nonlinear_arith)
                    requires
                        a >= 1,
                        b >= 1,
                        mantissa >= 0,
                ;
            }
        }
        if x < limit {
            x
        } else {
            limit
        }
    } else {
        let count: i32 = -exponent;
        assert((mantissa as int) / 1 == mantissa);
        while i < count
            invariant
                0 <= i <= count,
                x == (mantissa as int) / (pow2(i as nat) as int),
            decreases count - i,
        {
            proof {
                lemma_pow2_unfold((i + 1) as nat);
                lemma_pow2_pos(i as nat);
                let p = pow2(i as nat) as int;
                lemma_div_denominator(mantissa as int, p, 2);
                assert(p * 2 == 2 * p);
            }
            x = x / 2;
            i = i + 1;
        }
        if x < limit {
            x
        } else {
            limit
        }
    }
}

/// A magnitude with its sign, where `2^63` stands for it and all that is above.
fn with_sign(negative: bool, magnitude: u64) -> (r: i64)
    requires
        magnitude <= 0x8000_0000_0000_0000,
    ensures
        r == within_i64(negative, magnitude as int),
{
    if negative {
        if magnitude == 0x8000_0000_0000_0000 {
            i64::MIN
        } else {
            -(magnitude as i64)
        }
    } else if magnitude == 0x8000_0000_0000_0000 {
        i64::MAX
    } else {
        magnitude as i64
    }
}

/// A finite value's magnitude as the nearest whole number, or `2^63` where it is not below that.
fn nearest_up_to(mantissa: u64, exponent: i32) -> (r: u64)
    requires
        mantissa <= MANTISSA_LIMIT,
        -2000 < exponent < 1999,
    ensures
        r <= 0x8000_0000_0000_0000,
        r == if nearest_part(mantissa, exponent as int) < 0x8000_0000_0000_0000 {
            nearest_part(mantissa, exponent as int)
        } else {
            0x8000_0000_0000_0000
        },
{
    if exponent >= 0 {
        proof {
            lemma2_to64();
            let n = mantissa * power_numerator(exponent as int);
            assert(n / 1 == n);
            lemma_fundamental_div_mod_converse(2 * n + 1, 2, n, 1);
            assert(whole_part(mantissa, exponent as int) == n);
        }
        return whole_up_to(mantissa, exponent, 0x8000_0000_0000_0000);
    }
    let twice: u64 = whole_up_to(mantissa, exponent + 1, 0x8000_0000_0000_0000);
    proof {
        lemma2_to64();
        let k = (-exponent) as nat;
        let half = pow2((k - 1) as nat) as int;
        lemma_pow2_unfold(k);
        lemma_pow2_pos((k - 1) as nat);
        let m = mantissa as int;
        assert(m * 1 == m);
        let t = m / half;
        let rest = m % half;
        lemma_fundamental_div_mod(m, half);
        lemma_mod_bound(m, half);
        assert(0 <= t <= m) by (nonlinear_arith)
            requires
                m == half * t + rest,
                0 <= rest < half,
                m >= 0,
                half >= 1,
        ;
        assert(whole_part(mantissa, exponent + 1) == t);
        let q = (t + 1) / 2;
        let odd = (t + 1) % 2;
        assert(2 * m + 2 * half == q * (2 * (2 * half)) + (2 * half * odd + 2 * rest))
            by (nonlinear_arith)
            requires
                m == half * t + rest,
                t + 1 == 2 * q + odd,
        ;
        assert(0 <= 2 * half * odd + 2 * rest < 2 * (2 * half)) by (nonlinear_arith)
            requires
                0 <= odd <= 1,
                0 <= rest < half,
        ;
        lemma_fundamental_div_mod_converse(
            2 * m + 2 * half,
            2 * (2 * half),
            q,
            2 * half * odd + 2 * rest,
        );
    }
    (twice + 1) / 2
}

/// The whole number nearest to a value, as the nearest 64-bit integer where it lies outside their
/// range.
pub fn to_nearest_i64(a: Double) -> (r: i64)
    requires
        a.wf(),
    ensures
        r == nearest_whole(a),
{
    match a {
        Double::NotANumber => 0,
        Double::Infinite { negative } => if negative {
            i64::MIN
        } else {
            i64::MAX
        },
        Double::Finite { negative, mantissa, exponent } => with_sign(
            negative,
            nearest_up_to(mantissa, exponent),
        ),
    }
}

/// A value without its fraction, as the nearest 64-bit integer where it lies outside their range.
pub fn to_i64(a: Double) -> (r: i64)
    requires
        a.wf(),
    ensures
        r == truncated(a),
{
    match a {
        Double::NotANumber => 0,
        Double::Infinite { negative } => if negative {
            i64::MIN
        } else {
            i64::MAX
        },
        Double::Finite { negative, mantissa, exponent } => with_sign(
            negative,
            whole_up_to(mantissa, exponent, 0x8000_0000_0000_0000),
        ),
    }
}

/// A whole number as a value of the format, nearest where it is too large for the mantissa.
pub fn from_u64(x: u64) -> (r: Double)
    ensures
        r == rounded(false, x as int, 1),
        r.wf(),
{
    round(false, &BigNat::from_u64(x), &BigNat::from_u64(1))
}

proof fn lemma_quotient_at_least(n: int, d: int, e: int, k: int)
    requires
        n >= 0,
        d > 0,
        scaled_numerator(n, e) >= scaled_denominator(d, e) * k,
        k >= 0,
    ensures
        quotient(n, d, e) >= k,
{
    lemma_scales(n, d, e);
    let x = scaled_numerator(n, e);
    let y = scaled_denominator(d, e);
    lemma_div_is_ordered(y * k, x, y);
    assert((y * k) / y == k) by {
        assert(y * k == k * y) by (nonlinear_arith);
        lemma_fundamental_div_mod_converse(y * k, y, k, 0);
    }
}

/// From `2^1024` on a value is infinite.
pub proof fn lemma_rounded_above(negative: bool, n: int)
    requires
        n >= pow2(1024),
    ensures
        rounded(negative, n, 1) == (Double::Infinite { negative }),
{
    lemma_limit();
    lemma_pow2_pos(1024);
    lemma_pow2_adds(972, 52);
    lemma_quotient_at_least(n, 1, 972, MANTISSA_LEAST as int);
    lemma_binade_at_least(n, 1, 972);
}

/// Below half of the smallest positive value a value is zero.
pub proof fn lemma_rounded_near_zero(negative: bool, n: int, d: int)
    requires
        n >= 0,
        d > 0,
        n * pow2(1075) < d,
    ensures
        rounded(negative, n, d) == (Double::Finite {
            negative,
            mantissa: 0,
            exponent: EXPONENT_LEAST,
        }),
{
    let e = EXPONENT_LEAST as int;
    lemma_pow2_unfold(1075);
    lemma_pow2_pos(1074);
    let p = pow2(1074) as int;
    assert(n * (2 * p) == 2 * (n * p)) by (nonlinear_arith);
    assert(n * p >= 0) by (nonlinear_arith)
        requires
            n >= 0,
            p > 0,
    ;
    lemma_fundamental_div_mod_converse(n * p, d, 0, n * p);
    assert(in_binade(n, d, e));
    lemma_binade_unique(n, d, e);
}

/// The powers of two that bound a mantissa.
pub proof fn lemma_limit()
    ensures
        pow2(53) == MANTISSA_LIMIT,
        pow2(52) == MANTISSA_LEAST,
        pow2(0) == 1,
{
    lemma2_to64();
    lemma_pow2_adds(32, 20);
    lemma_pow2_adds(32, 21);
}

proof fn lemma_pow2_at_most_limit(i: nat)
    requires
        i <= 53,
    ensures
        pow2(i) <= MANTISSA_LIMIT,
{
    lemma_limit();
    lemma_pow2_adds(i, (53 - i) as nat);
    lemma_pow2_pos((53 - i) as nat);
    lemma_pow2_pos(i);
    let a = pow2(i) as int;
    let b = pow2((53 - i) as nat) as int;
    assert(a <= a * b) by (nonlinear_arith)
        requires
            a >= 0,
            b >= 1,
    ;
}

/// A fraction taken to larger terms divides as before.
proof fn lemma_larger_terms(n: int, d: int, e: int)
    requires
        n >= 0,
        d > 0,
    ensures
        quotient(n * d, d, e) == quotient(n, 1, e),
        remainder(n * d, d, e) == remainder(n, 1, e) * d,
        scaled_denominator(d, e) == scaled_denominator(1, e) * d,
{
    lemma_scales(n, 1, e);
    let x = scaled_numerator(n, e);
    let y = scaled_denominator(1, e);
    let q = x / y;
    let r = x % y;
    assert(scaled_numerator(n * d, e) == x * d) by {
        if e < 0 {
            let p = pow2((-e) as nat) as int;
            assert(n * d * p == n * p * d) by (nonlinear_arith);
        }
    }
    assert(scaled_denominator(d, e) == y * d) by {
        if e > 0 {
            let p = pow2(e as nat) as int;
            assert(d * p == 1 * p * d) by (nonlinear_arith);
        }
    }
    lemma_fundamental_div_mod(x, y);
    lemma_mod_bound(x, y);
    assert(x * d == (y * d) * q + r * d) by (nonlinear_arith)
        requires
            x == y * q + r,
    ;
    assert(0 <= r * d < y * d) by (nonlinear_arith)
        requires
            0 <= r < y,
            d > 0,
    ;
    assert((y * d) * q == q * (y * d)) by (nonlinear_arith);
    lemma_fundamental_div_mod_converse(x * d, y * d, q, r * d);
}

/// A whole number is rounded alike however it is written as a fraction.
pub proof fn lemma_rounded_in_larger_terms(negative: bool, n: int, d: int)
    requires
        n >= 0,
        d > 0,
    ensures
        rounded(negative, n * d, d) == rounded(negative, n, 1),
{
    let e = binade(n, 1);
    lemma_binade_exists(n, 1);
    lemma_larger_terms(n, d, e);
    assert(n * d >= 0) by (nonlinear_arith)
        requires
            n >= 0,
            d > 0,
    ;
    assert(in_binade(n * d, d, e));
    lemma_binade_unique(n * d, d, e);
    let twice = 2 * remainder(n, 1, e);
    let whole = scaled_denominator(1, e);
    assert(2 * (remainder(n, 1, e) * d) == twice * d) by (nonlinear_arith)
        requires
            twice == 2 * remainder(n, 1, e),
    ;
    assert((twice * d < whole * d) == (twice < whole)) by (nonlinear_arith)
        requires
            d > 0,
    ;
    assert((twice * d == whole * d) == (twice == whole)) by (nonlinear_arith)
        requires
            d > 0,
    ;
}

/// Whether a value is a whole number below `2^53`, written without a positive exponent.
pub open spec fn is_whole(x: Double, n: int) -> bool {
    &&& 0 <= n < MANTISSA_LIMIT
    &&& x matches Double::Finite { negative, mantissa, exponent }
    &&& !negative
    &&& EXPONENT_LEAST <= exponent <= 0
    &&& mantissa == n * pow2((-exponent) as nat)
}

/// A whole number below `2^53` is a value of the format.
pub proof fn lemma_small_whole(n: int)
    requires
        0 <= n < MANTISSA_LIMIT,
    ensures
        is_whole(rounded(false, n, 1), n),
{
    let e = binade(n, 1);
    lemma_binade_exists(n, 1);
    lemma_limit();
    if e > 0 {
        lemma_quotient_below(n, 1, 0, e);
        assert(quotient(n, 1, 0) == n);
    }
    let p = pow2((-e) as nat) as int;
    assert(p == 1 ==> n * p == n) by (nonlinear_arith);
    assert(scaled_numerator(n, e) == n * p);
    assert(quotient(n, 1, e) == n * p);
    assert(remainder(n, 1, e) == 0);
}

/// The product of two small whole numbers is rounded once.
pub proof fn lemma_product_of_whole(a: Double, b: Double, n: int, k: int)
    requires
        is_whole(a, n),
        is_whole(b, k),
    ensures
        product(a, b) == rounded(false, n * k, 1),
{
    let e = a->exponent as int;
    let f = b->exponent as int;
    let p = pow2((-e) as nat) as int;
    let q = pow2((-f) as nat) as int;
    lemma_limit();
    lemma_pow2_adds((-e) as nat, (-f) as nat);
    let d = power_denominator(e + f);
    assert(d == p * q);
    lemma_pow2_pos((-e) as nat);
    lemma_pow2_pos((-f) as nat);
    assert(d > 0) by (nonlinear_arith)
        requires
            d == p * q,
            p > 0,
            q > 0,
    ;
    assert((n * p) * (k * q) * 1 == (n * k) * (p * q)) by (nonlinear_arith);
    assert(n * k >= 0) by (nonlinear_arith)
        requires
            n >= 0,
            k >= 0,
    ;
    lemma_rounded_in_larger_terms(false, n * k, d);
}

/// The sum of two small whole numbers is rounded once.
pub proof fn lemma_sum_of_whole(a: Double, b: Double, n: int, k: int)
    requires
        is_whole(a, n),
        is_whole(b, k),
    ensures
        sum(a, b) == rounded(false, n + k, 1),
{
    let e = a->exponent as int;
    let f = b->exponent as int;
    let least = lesser(e, f);
    let d = pow2((-least) as nat) as int;
    lemma_limit();
    lemma_pow2_pos((-least) as nat);
    let p = pow2((-e) as nat) as int;
    let q = pow2((-f) as nat) as int;
    let u = pow2((e - least) as nat) as int;
    let v = pow2((f - least) as nat) as int;
    lemma_pow2_adds((-e) as nat, (e - least) as nat);
    lemma_pow2_adds((-f) as nat, (f - least) as nat);
    assert((n * p) * u == n * (p * u)) by (nonlinear_arith);
    assert((k * q) * v == k * (q * v)) by (nonlinear_arith);
    assert(n * d + k * d == (n + k) * d) by (nonlinear_arith);
    assert((n + k) * d >= 0) by (nonlinear_arith)
        requires
            n + k >= 0,
            d > 0,
    ;
    lemma_rounded_in_larger_terms(false, n + k, d);
}

/// Below `2^59` a multiple of 64 is a value of the format.
pub proof fn lemma_whole_nearest(n: int)
    requires
        0 <= n < 0x800_0000_0000_0000,
        n % 64 == 0,
    ensures
        nearest_whole(rounded(false, n, 1)) == n,
{
    let e = binade(n, 1);
    lemma_binade_exists(n, 1);
    lemma_limit();
    lemma2_to64();
    lemma_quotient_step(n, 1, e);
    if e <= 0 {
        let p = pow2((-e) as nat) as int;
        lemma_pow2_pos((-e) as nat);
        assert(p == 1 ==> n * p == n) by (nonlinear_arith);
        assert(scaled_numerator(n, e) == n * p);
        assert(scaled_denominator(1, e) == 1);
        lemma_fundamental_div_mod_converse(n * p, 1, n * p, 0);
        assert(remainder(n, 1, e) == 0);
        assert(2 * (n * p) + p == n * (2 * p) + p) by (nonlinear_arith);
        lemma_fundamental_div_mod_converse(2 * (n * p) + p, 2 * p, n, p);
        assert((n * p) * power_numerator(e) == n * p);
        assert(power_denominator(e) == p);
        assert(nearest_mantissa(n, 1, e) == n * p);
        assert(nearest_part((n * p) as u64, e) == n);
    } else {
        if e > 6 {
            assert(quotient(n, 1, 7) == n / 128);
            if e > 7 {
                lemma_quotient_below(n, 1, 7, e);
            }
        }
        let p = pow2(e as nat) as int;
        let t = n / 64;
        let c = if e == 1 {
            32
        } else if e == 2 {
            16
        } else if e == 3 {
            8
        } else if e == 4 {
            4
        } else if e == 5 {
            2
        } else {
            1int
        };
        assert(c * p == 64);
        assert(n == (t * c) * p) by (nonlinear_arith)
            requires
                n == 64 * t,
                c * p == 64,
        ;
        lemma_fundamental_div_mod_converse(n, p, t * c, 0);
        assert(scaled_denominator(1, e) == p);
        assert(nearest_mantissa(n, 1, e) == t * c);
        lemma_fundamental_div_mod_converse(2 * n + 1, 2, n, 1);
        assert((t * c) * power_numerator(e) == n);
        assert(nearest_part((t * c) as u64, e) == n);
    }
}

/// A product does not depend on the order of its terms.
pub proof fn lemma_product_commutes(a: Double, b: Double)
    ensures
        product(a, b) == product(b, a),
{
    if a is Finite && b is Finite {
        let m = a->mantissa as int;
        let k = b->mantissa as int;
        let e = a->exponent + b->exponent;
        assert(m * k == k * m) by (nonlinear_arith);
        assert(e == b->exponent + a->exponent);
    }
}

/// A mantissa is the whole number nearest to its fraction, and even where two are equally near.
pub proof fn lemma_mantissa_is_nearest(n: int, d: int, e: int)
    requires
        n >= 0,
        d > 0,
    ensures
        ({
            let m = nearest_mantissa(n, d, e);
            let (above, below) = (scaled_numerator(n, e), scaled_denominator(d, e));
            &&& 2 * (m * below - above) <= below
            &&& 2 * (above - m * below) <= below
            &&& 2 * (m * below - above) == below || 2 * (above - m * below) == below ==> m % 2 == 0
        }),
{
    lemma_scales(n, d, e);
    let (x, y) = (scaled_numerator(n, e), scaled_denominator(d, e));
    let (q, r) = (x / y, x % y);
    lemma_fundamental_div_mod(x, y);
    lemma_mod_bound(x, y);
    assert(x == q * y + r) by (nonlinear_arith)
        requires
            x == y * q + r,
    ;
    assert((q + 1) * y == q * y + y) by (nonlinear_arith);
}

/// A value of the format is rounded to itself.
pub proof fn lemma_value_stays(negative: bool, mantissa: u64, exponent: int)
    requires
        MANTISSA_LEAST <= mantissa < MANTISSA_LIMIT,
        EXPONENT_LEAST <= exponent <= EXPONENT_MOST,
    ensures
        rounded(
            negative,
            mantissa * power_numerator(exponent),
            power_denominator(exponent),
        ) == (Double::Finite { negative, mantissa, exponent: exponent as i32 }),
{
    let m = mantissa as int;
    let n = m * power_numerator(exponent);
    let d = power_denominator(exponent);
    let p = pow2(absolute_exponent(exponent)) as int;
    lemma_pow2_pos(absolute_exponent(exponent));
    assert(m * 1 == m);
    assert(1 * p == p);
    let y = scaled_denominator(d, exponent);
    assert(scaled_numerator(n, exponent) == m * y);
    assert(y > 0);
    lemma_fundamental_div_mod_converse(m * y, y, m, 0);
    assert(quotient(n, d, exponent) == m);
    assert(remainder(n, d, exponent) == 0);
    assert(n >= 0) by (nonlinear_arith)
        requires
            n == m * power_numerator(exponent),
            m >= 0,
            power_numerator(exponent) > 0,
    ;
    assert(in_binade(n, d, exponent));
    lemma_binade_unique(n, d, exponent);
}

/// The magnitude of an exponent.
spec fn absolute_exponent(e: int) -> nat {
    if e < 0 {
        (-e) as nat
    } else {
        e as nat
    }
}

/// A sum does not depend on the order of its terms.
pub proof fn lemma_sum_commutes(a: Double, b: Double)
    ensures
        sum(a, b) == sum(b, a),
{
    if a is Finite && b is Finite {
        assert(lesser(a->exponent as int, b->exponent as int) == lesser(
            b->exponent as int,
            a->exponent as int,
        ));
    }
}

/// What is not a number makes every sum and product so; so do infinite values of unlike signs
/// added, and an infinite value times zero. Else an infinite value stays infinite.
pub proof fn lemma_values_without_bound(a: Double, negative: bool)
    ensures
        sum(Double::NotANumber, a) == Double::NotANumber,
        product(Double::NotANumber, a) == Double::NotANumber,
        a is Finite ==> sum(Double::Infinite { negative }, a) == (Double::Infinite { negative }),
        sum(Double::Infinite { negative }, Double::Infinite { negative }) == (Double::Infinite {
            negative,
        }),
        sum(Double::Infinite { negative }, Double::Infinite { negative: !negative })
            == Double::NotANumber,
        a is Finite && a->mantissa == 0 ==> product(Double::Infinite { negative }, a)
            == Double::NotANumber,
        a is Finite && a->mantissa != 0 ==> product(Double::Infinite { negative }, a)
            == (Double::Infinite { negative: negative != a->Finite_negative }),
        a is Infinite ==> product(Double::Infinite { negative }, a) == (Double::Infinite {
            negative: negative != a->Infinite_negative,
        }),
{
}

/// The sign of a value is that of its whole numbers, and their magnitudes do not depend on it, as
/// far as both lie within 64 bits.
pub proof fn lemma_whole_numbers_have_the_sign(mantissa: u64, exponent: i32)
    ensures
        ({
            let above = Double::Finite { negative: false, mantissa, exponent };
            let below = Double::Finite { negative: true, mantissa, exponent };
            &&& truncated(above) < i64::MAX ==> truncated(below) == -truncated(above)
            &&& nearest_whole(above) < i64::MAX ==> nearest_whole(below) == -nearest_whole(above)
            &&& truncated(above) >= 0
            &&& nearest_whole(above) == truncated(above) || nearest_whole(above) == truncated(above)
                + 1
        }),
{
    let n = mantissa * power_numerator(exponent as int);
    let d = power_denominator(exponent as int);
    if exponent > 0 {
        lemma_pow2_pos(exponent as nat);
    }
    if exponent < 0 {
        lemma_pow2_pos((-exponent) as nat);
    }
    assert(n >= 0) by (nonlinear_arith)
        requires
            n == mantissa * power_numerator(exponent as int),
            power_numerator(exponent as int) > 0,
    ;
    let q = n / d;
    let r = n % d;
    lemma_fundamental_div_mod(n, d);
    lemma_mod_bound(n, d);
    lemma_div_pos_is_pos(n, d);
    let more: int = if 2 * r >= d {
        1
    } else {
        0
    };
    let rest = if 2 * r >= d {
        2 * r - d
    } else {
        2 * r + d
    };
    assert(2 * n + d == (q + more) * (2 * d) + rest) by (nonlinear_arith)
        requires
            n == d * q + r,
            (more == 1 && rest == 2 * r - d) || (more == 0 && rest == 2 * r + d),
    ;
    assert(0 <= rest < 2 * d);
    lemma_fundamental_div_mod_converse(2 * n + d, 2 * d, q + more, rest);
    assert(nearest_part(mantissa, exponent as int) == q + more);
}

/// Beyond the range of 64 bits a value is held at its end, and what is not a number is zero.
pub proof fn lemma_whole_numbers_are_held(a: Double)
    ensures
        i64::MIN <= truncated(a) <= i64::MAX,
        i64::MIN <= nearest_whole(a) <= i64::MAX,
        truncated(Double::Infinite { negative: false }) == i64::MAX,
        truncated(Double::Infinite { negative: true }) == i64::MIN,
        nearest_whole(Double::Infinite { negative: false }) == i64::MAX,
        nearest_whole(Double::Infinite { negative: true }) == i64::MIN,
        truncated(Double::NotANumber) == 0,
        nearest_whole(Double::NotANumber) == 0,
{
    if a is Finite {
        let exponent = a->exponent as int;
        lemma_whole_numbers_have_the_sign(a->mantissa, a->exponent);
        let above = Double::Finite {
            negative: false,
            mantissa: a->mantissa,
            exponent: a->exponent,
        };
        assert(a->Finite_negative ==> truncated(above) >= 0);
        assert(whole_part(a->mantissa, exponent) >= 0);
        assert(nearest_part(a->mantissa, exponent) >= 0);
    }
}

} // verus!
