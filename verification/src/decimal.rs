//! Decimal numerals with a fraction and an exponent, read as double-precision values.

use vstd::arithmetic::power::{lemma_pow_adds, lemma_pow_positive, pow};
use vstd::arithmetic::power2::{lemma2_to64, lemma_pow2_adds, lemma_pow2_pos, pow2};
use vstd::prelude::*;

use crate::bignum::BigNat;
use crate::binary64::{
    lemma_rounded_above, lemma_rounded_near_zero, round, rounded, Double, EXPONENT_LEAST,
};
use crate::text::{
    all_digits, ascii_lower, chars_between, chars_of, digits_end, end_of_digits,
    equal_ignoring_case, is_digit, lemma_digits_reach, numeral_value, same_ignoring_case,
};

verus! {

/// `digits * 10^exponent`, with a sign, as the nearest double-precision value.
pub open spec fn decimal_double(negative: bool, digits: int, exponent: int) -> Double {
    if exponent >= 0 {
        rounded(negative, digits * pow(10, exponent as nat), 1)
    } else {
        rounded(negative, digits, pow(10, (-exponent) as nat))
    }
}

/// The exponent written at `i`: zero at the end of the text, else the letter E, a sign or none, and
/// digits up to the end.
pub open spec fn exponent_at(s: Seq<char>, i: int) -> Option<int> {
    if i == s.len() {
        Some(0)
    } else if s[i] != 'e' && s[i] != 'E' {
        None
    } else {
        let signed = i + 1 < s.len() && (s[i + 1] == '-' || s[i + 1] == '+');
        let start = if signed {
            i + 2
        } else {
            i + 1
        };
        if start < s.len() && digits_end(s, start) == s.len() {
            let value = numeral_value(s.skip(start));
            Some(
                if signed && s[i + 1] == '-' {
                    -value
                } else {
                    value
                },
            )
        } else {
            None
        }
    }
}

/// The value of the unsigned decimal numeral that starts at `start`: digits, of which a point may
/// stand before, among or after, and an exponent or none.
pub open spec fn decimal_at(negative: bool, s: Seq<char>, start: int) -> Option<Double> {
    let i = digits_end(s, start);
    let point = i < s.len() && s[i] == '.';
    let j = if point {
        digits_end(s, i + 1)
    } else {
        i
    };
    let fraction = if point {
        s.subrange(i + 1, j)
    } else {
        Seq::empty()
    };
    let digits = s.subrange(start, i) + fraction;
    if digits.len() == 0 {
        None
    } else {
        match exponent_at(s, j) {
            None => None,
            Some(exponent) => Some(
                decimal_double(negative, numeral_value(digits), exponent - fraction.len()),
            ),
        }
    }
}

/// The double-precision value that a text denotes: a sign or none, and then a decimal numeral or,
/// in capitals or small letters, `inf`, `infinity` or `nan`.
pub open spec fn parsed_double(s: Seq<char>) -> Option<Double> {
    let signed = s.len() > 0 && (s[0] == '-' || s[0] == '+');
    let negative = signed && s[0] == '-';
    let start: int = if signed {
        1
    } else {
        0
    };
    let rest = s.skip(start);
    if equal_ignoring_case(rest, "inf"@) || equal_ignoring_case(rest, "infinity"@) {
        Some(Double::Infinite { negative })
    } else if equal_ignoring_case(rest, "nan"@) {
        Some(Double::NotANumber)
    } else {
        decimal_at(negative, s, start)
    }
}

/// `10^k >= 2^(3k)`.
proof fn lemma_ten_above_eight(k: nat)
    ensures
        pow(10, k) >= pow2(3 * k),
        pow(10, k) > 0,
    decreases k,
{
    lemma2_to64();
    lemma_pow_positive(10, k);
    if k == 0 {
        assert(pow(10, 0) == 1) by {
            reveal(pow);
        }
    } else {
        lemma_ten_above_eight((k - 1) as nat);
        assert(pow(10, k) == 10 * pow(10, (k - 1) as nat)) by {
            reveal(pow);
        }
        assert(3 * k == 3 * (k - 1) + 3);
        lemma_pow2_adds((3 * (k - 1)) as nat, 3);
        let a = pow(10, (k - 1) as nat);
        let b = pow2((3 * (k - 1)) as nat) as int;
        lemma_pow2_pos((3 * (k - 1)) as nat);
        assert(10 * a >= b * 8) by (nonlinear_arith)
            requires
                a >= b,
                b >= 0,
        ;
    }
}

/// A larger power of ten is at least a smaller one times `2^1203`, four hundred and one or more
/// steps apart.
proof fn lemma_ten_apart(low: nat, high: nat)
    requires
        high >= low + 401,
    ensures
        pow(10, high) >= pow(10, low) * pow2(1203),
        pow(10, low) > 0,
{
    let gap = (high - low) as nat;
    lemma_pow_adds(10, low, gap);
    lemma_pow_adds(10, 401, (gap - 401) as nat);
    lemma_ten_above_eight(401);
    lemma_pow_positive(10, low);
    lemma_pow_positive(10, (gap - 401) as nat);
    let a = pow(10, low);
    let b = pow(10, gap);
    let c = pow(10, 401);
    let d = pow(10, (gap - 401) as nat);
    let e = pow2(1203) as int;
    assert(b >= e) by (nonlinear_arith)
        requires
            b == c * d,
            c >= e,
            d >= 1,
            c >= 0,
    ;
    assert(a * b >= a * e) by (nonlinear_arith)
        requires
            a > 0,
            b >= e,
    ;
}

/// Beyond four hundred digits before the point a value is infinite.
proof fn lemma_decimal_overflow(negative: bool, digits: int, exponent: int)
    requires
        digits >= 1,
        exponent > 400,
    ensures
        decimal_double(negative, digits, exponent) == (Double::Infinite { negative }),
{
    lemma_ten_apart(0, exponent as nat);
    assert(pow(10, 0) == 1) by {
        reveal(pow);
    }
    let a = pow(10, exponent as nat);
    lemma_pow2_adds(1024, 179);
    lemma_pow2_pos(179);
    lemma_pow2_pos(1024);
    let p = pow2(1024) as int;
    let t = pow2(179) as int;
    assert(digits * a >= p) by (nonlinear_arith)
        requires
            digits >= 1,
            a >= 1 * (p * t),
            p > 0,
            t >= 1,
    ;
    lemma_rounded_above(negative, digits * a);
}

/// Beyond four hundred zeros behind the point a value is zero.
proof fn lemma_decimal_underflow(negative: bool, digits: int, exponent: int, count: nat)
    requires
        0 <= digits < pow(10, count),
        exponent < -(400 + count),
    ensures
        decimal_double(negative, digits, exponent) == (Double::Finite {
            negative,
            mantissa: 0,
            exponent: EXPONENT_LEAST,
        }),
{
    let k = (-exponent) as nat;
    lemma_ten_apart(count, k);
    let c = pow(10, count);
    let d = pow(10, k);
    lemma_pow2_adds(1075, 128);
    lemma_pow2_pos(1075);
    lemma_pow2_pos(128);
    let p = pow2(1075) as int;
    let t = pow2(128) as int;
    assert(digits * p < d) by (nonlinear_arith)
        requires
            0 <= digits < c,
            d >= c * (p * t),
            p > 0,
            t >= 1,
    ;
    lemma_rounded_near_zero(negative, digits, d);
}

/// Zero is zero with any exponent.
proof fn lemma_decimal_zero(negative: bool, exponent: int)
    ensures
        decimal_double(negative, 0, exponent) == (Double::Finite {
            negative,
            mantissa: 0,
            exponent: EXPONENT_LEAST,
        }),
{
    if exponent >= 0 {
        let a = pow(10, exponent as nat);
        assert(0 * a == 0);
        assert(0 * pow2(1075) == 0);
        lemma_rounded_near_zero(negative, 0, 1);
    } else {
        lemma_pow_positive(10, (-exponent) as nat);
        assert(0 * pow2(1075) == 0);
        lemma_rounded_near_zero(negative, 0, pow(10, (-exponent) as nat));
    }
}

/// `x * 10^count`.
fn times_ten_to(x: &BigNat, count: u128) -> (r: BigNat)
    ensures
        r@ == x@ * pow(10, count as nat),
{
    let mut r = x.mul_add(1, 0);
    let mut i: u128 = 0;
    assert(pow(10, 0) == 1) by {
        reveal(pow);
    }
    while i < count
        invariant
            i <= count,
            r@ == x@ * pow(10, i as nat),
        decreases count - i,
    {
        proof {
            assert(pow(10, (i + 1) as nat) == 10 * pow(10, i as nat)) by {
                reveal(pow);
            }
            let p = pow(10, i as nat);
            assert(x@ * (10 * p) == (x@ * p) * 10) by (nonlinear_arith);
        }
        r = r.mul_add(10, 0);
        i = i + 1;
    }
    r
}

/// The number that the digits from `from` up to `to` denote, appended to those of `before`.
fn digits_value(
    v: &Vec<char>,
    from: usize,
    to: usize,
    before: BigNat,
    Ghost(head): Ghost<Seq<char>>,
) -> (r: BigNat)
    requires
        from <= to <= v.len(),
        forall|i: int| from <= i < to ==> is_digit(#[trigger] v@[i]),
        before@ == numeral_value(head),
    ensures
        r@ == numeral_value(head + v@.subrange(from as int, to as int)),
{
    let mut r = before;
    let mut i: usize = from;
    assert(head + v@.subrange(from as int, from as int) =~= head);
    while i < to
        invariant
            from <= i <= to <= v.len(),
            forall|i: int| from <= i < to ==> is_digit(#[trigger] v@[i]),
            r@ == numeral_value(head + v@.subrange(from as int, i as int)),
        decreases to - i,
    {
        let d: u32 = v[i] as u32 - '0' as u32;
        proof {
            let next = head + v@.subrange(from as int, i + 1);
            assert(next.drop_last() =~= head + v@.subrange(from as int, i as int));
            assert(next.last() == v@[i as int]);
        }
        r = r.mul_add(10, d);
        i = i + 1;
    }
    r
}

/// A row of digits denotes less than the power of ten with as many zeros.
proof fn lemma_numeral_below(s: Seq<char>)
    requires
        forall|i: int| 0 <= i < s.len() ==> is_digit(#[trigger] s[i]),
    ensures
        0 <= numeral_value(s) < pow(10, s.len()),
    decreases s.len(),
{
    if s.len() == 0 {
        assert(pow(10, 0) == 1) by {
            reveal(pow);
        }
    } else {
        assert(forall|i: int| 0 <= i < s.drop_last().len() ==> s.drop_last()[i] == s[i]);
        lemma_numeral_below(s.drop_last());
        assert(is_digit(s[s.len() - 1]));
        assert(pow(10, s.len()) == 10 * pow(10, (s.len() - 1) as nat)) by {
            reveal(pow);
        }
    }
}

/// A limit on exponents; one beyond it is as good as any other.
const EXPONENT_CAP: i128 = 0x1_0000_0000_0000_0000_0000;

/// Reads the exponent at `i`, held within the cap.
fn parse_exponent(v: &Vec<char>, i: usize) -> (r: Option<i128>)
    requires
        i <= v.len(),
    ensures
        match r {
            None => exponent_at(v@, i as int) is None,
            Some(x) => exponent_at(v@, i as int) matches Some(e) && -EXPONENT_CAP <= x
                <= EXPONENT_CAP && (x == e || (x == EXPONENT_CAP && e >= EXPONENT_CAP) || (x
                == -EXPONENT_CAP && e <= -EXPONENT_CAP)),
        },
{
    if i == v.len() {
        return Some(0);
    }
    if v[i] != 'e' && v[i] != 'E' {
        return None;
    }
    let negative: bool = v.len() - i > 1 && v[i + 1] == '-';
    let signed: bool = negative || (v.len() - i > 1 && v[i + 1] == '+');
    let start: usize = if signed {
        i + 2
    } else {
        i + 1
    };
    let end: usize = end_of_digits(v, start);
    if start >= v.len() || end < v.len() {
        return None;
    }
    let ghost body = v@.skip(start as int);
    assert(body =~= v@.subrange(start as int, v.len() as int));
    let mut x: i128 = 0;
    let mut j: usize = start;
    assert(v@.subrange(start as int, start as int) =~= Seq::<char>::empty());
    while j < v.len()
        invariant
            start <= j <= v.len(),
            forall|k: int| start <= k < v.len() ==> is_digit(#[trigger] v@[k]),
            0 <= x <= EXPONENT_CAP,
            x == numeral_value(v@.subrange(start as int, j as int)) || (x == EXPONENT_CAP
                && numeral_value(v@.subrange(start as int, j as int)) >= EXPONENT_CAP),
        decreases v.len() - j,
    {
        let d: i128 = (v[j] as u32 - '0' as u32) as i128;
        proof {
            let next = v@.subrange(start as int, j + 1);
            assert(next.drop_last() =~= v@.subrange(start as int, j as int));
            assert(next.last() == v@[j as int]);
        }
        let next: i128 = x * 10 + d;
        x = if next > EXPONENT_CAP {
            EXPONENT_CAP
        } else {
            next
        };
        j = j + 1;
    }
    if negative {
        Some(-x)
    } else {
        Some(x)
    }
}

/// The value of `digits * 10^true_exponent`, of whose exponent it matters only that it is large.
fn nearest(
    negative: bool,
    digits: &BigNat,
    exponent: i128,
    Ghost(true_exponent): Ghost<int>,
    count: u64,
) -> (r: Double)
    requires
        0 <= digits@ < pow(10, count as nat),
        exponent == true_exponent || (exponent > 1000 && true_exponent > 1000) || (exponent < -(1000
            + count) && true_exponent < -(1000 + count)),
    ensures
        r == decimal_double(negative, digits@, true_exponent),
        r.wf(),
{
    let one = BigNat::from_u64(1);
    let positive: bool = digits.checked_minus(&one).is_some();
    if !positive {
        proof {
            lemma_decimal_zero(negative, true_exponent);
        }
        return Double::Finite { negative, mantissa: 0, exponent: EXPONENT_LEAST };
    }
    if exponent > 400 {
        proof {
            lemma_decimal_overflow(negative, digits@, true_exponent);
        }
        return Double::Infinite { negative };
    }
    if exponent < -(400 + count as i128) {
        proof {
            lemma_decimal_underflow(negative, digits@, true_exponent, count as nat);
        }
        return Double::Finite { negative, mantissa: 0, exponent: EXPONENT_LEAST };
    }
    if exponent >= 0 {
        let scaled = times_ten_to(digits, exponent as u128);
        round(negative, &scaled, &one)
    } else {
        let scale = times_ten_to(&one, (-exponent) as u128);
        proof {
            lemma_pow_positive(10, (-exponent) as nat);
            assert(1 * pow(10, (-exponent) as nat) == pow(10, (-exponent) as nat));
        }
        round(negative, digits, &scale)
    }
}

/// Reads an unsigned decimal numeral.
fn parse_decimal(negative: bool, v: &Vec<char>, start: usize) -> (r: Option<Double>)
    requires
        start <= v.len(),
    ensures
        r == decimal_at(negative, v@, start as int),
        r matches Some(d) ==> d.wf(),
{
    let i: usize = end_of_digits(v, start);
    let point: bool = i < v.len() && v[i] == '.';
    let from: usize = if point {
        i + 1
    } else {
        i
    };
    let j: usize = if point {
        end_of_digits(v, from)
    } else {
        i
    };
    let ghost fraction = if point {
        v@.subrange(i + 1, j as int)
    } else {
        Seq::empty()
    };
    let ghost digits = v@.subrange(start as int, i as int) + fraction;
    assert(v@.subrange(from as int, j as int) =~= fraction);
    let places: usize = j - from;
    if i == start && places == 0 {
        assert(digits.len() == 0);
        return None;
    }
    assert(digits.len() == (i - start) + places);
    let exponent: i128 = match parse_exponent(v, j) {
        None => {
            return None;
        },
        Some(x) => x,
    };
    let ghost whole = exponent_at(v@, j as int)->Some_0;
    let zero = BigNat::from_u64(0);
    let head = digits_value(v, start, i, zero, Ghost(Seq::empty()));
    assert(Seq::<char>::empty() + v@.subrange(start as int, i as int) =~= v@.subrange(
        start as int,
        i as int,
    ));
    let all = digits_value(v, from, j, head, Ghost(v@.subrange(start as int, i as int)));
    let count: u64 = ((i - start) + places) as u64;
    proof {
        assert(forall|k: int| 0 <= k < digits.len() ==> is_digit(#[trigger] digits[k])) by {
            assert forall|k: int| 0 <= k < digits.len() implies is_digit(#[trigger] digits[k]) by {
                if k < i - start {
                    assert(digits[k] == v@[start + k]);
                } else {
                    assert(digits[k] == v@[from + (k - (i - start))]);
                }
            }
        }
        lemma_numeral_below(digits);
    }
    Some(nearest(negative, &all, exponent - places as i128, Ghost(whole - fraction.len()), count))
}

/// Reads a double-precision value.
pub fn parse_double(v: &Vec<char>) -> (r: Option<Double>)
    ensures
        r == parsed_double(v@),
        r matches Some(d) ==> d.wf(),
{
    let negative: bool = v.len() > 0 && v[0] == '-';
    let signed: bool = negative || (v.len() > 0 && v[0] == '+');
    let start: usize = if signed {
        1
    } else {
        0
    };
    let rest = chars_between(v, start, v.len());
    assert(rest@ =~= v@.skip(start as int));
    if same_ignoring_case(&rest, &chars_of("inf")) || same_ignoring_case(
        &rest,
        &chars_of("infinity"),
    ) {
        return Some(Double::Infinite { negative });
    }
    if same_ignoring_case(&rest, &chars_of("nan")) {
        return Some(Double::NotANumber);
    }
    parse_decimal(negative, v, start)
}

/// A row of digits is read as the whole number that it denotes.
pub proof fn lemma_whole_numeral(s: Seq<char>)
    requires
        s.len() > 0,
        forall|i: int| 0 <= i < s.len() ==> is_digit(#[trigger] s[i]),
    ensures
        parsed_double(s) == Some(rounded(false, numeral_value(s), 1)),
{
    lemma_decimal_read(false, s, Seq::empty());
    assert(pow(10, 0) == 1) by {
        reveal(pow);
    }
    assert(numeral_value(s) * 1 == numeral_value(s));
}

/// A numeral with its sign: a minus sign or none.
pub open spec fn signed_text(negative: bool, s: Seq<char>) -> Seq<char> {
    if negative {
        seq!['-'] + s
    } else {
        s
    }
}

/// A numeral of the digits before the point and those behind it; without the point where there are
/// none behind it.
pub open spec fn decimal_text(whole: Seq<char>, fraction: Seq<char>) -> Seq<char> {
    if fraction.len() == 0 {
        whole
    } else {
        whole + seq!['.'] + fraction
    }
}

/// What digits before the point and digits behind it denote, in units of the last of them.
pub open spec fn decimal_units(whole: Seq<char>, fraction: Seq<char>) -> int {
    numeral_value(whole) * pow(10, fraction.len()) + numeral_value(fraction)
}

/// Digits appended to digits.
proof fn lemma_digits_appended(a: Seq<char>, b: Seq<char>)
    ensures
        numeral_value(a + b) == decimal_units(a, b),
    decreases b.len(),
{
    if b.len() == 0 {
        assert(a + b =~= a);
        assert(pow(10, 0) == 1) by {
            reveal(pow);
        }
        assert(numeral_value(a) * 1 == numeral_value(a));
    } else {
        lemma_digits_appended(a, b.drop_last());
        assert((a + b).drop_last() =~= a + b.drop_last());
        assert((a + b).last() == b.last());
        assert(pow(10, b.len()) == 10 * pow(10, (b.len() - 1) as nat)) by {
            reveal(pow);
        }
        let x = numeral_value(a);
        let p = pow(10, (b.len() - 1) as nat);
        assert(x * (10 * p) == (x * p) * 10) by (nonlinear_arith);
    }
}

/// A numeral with a fraction is read as the value nearest to what its digits denote.
pub proof fn lemma_decimal_read(negative: bool, whole: Seq<char>, fraction: Seq<char>)
    requires
        all_digits(whole),
        all_digits(fraction),
        whole.len() > 0,
    ensures
        parsed_double(signed_text(negative, decimal_text(whole, fraction))) == Some(
            rounded(negative, decimal_units(whole, fraction), pow(10, fraction.len())),
        ),
        0 <= decimal_units(whole, fraction) < (numeral_value(whole) + 1) * pow(10, fraction.len()),
        pow(10, fraction.len()) > 0,
{
    reveal_strlit("inf");
    reveal_strlit("infinity");
    reveal_strlit("nan");
    let body = decimal_text(whole, fraction);
    let s = signed_text(negative, body);
    let start: int = if negative {
        1
    } else {
        0
    };
    let rest = s.skip(start);
    assert(rest =~= body);
    assert(is_digit(whole[0]));
    assert(body[0] == whole[0]);
    assert(ascii_lower(body[0]) == body[0]);
    assert(ascii_lower("inf"@[0]) == 'i');
    assert(ascii_lower("infinity"@[0]) == 'i');
    assert(ascii_lower("nan"@[0]) == 'n');
    let i = start + whole.len();
    assert forall|k: int| start <= k < i implies is_digit(#[trigger] s[k]) by {
        assert(s[k] == whole[k - start]);
    }
    lemma_digits_reach(s, start, i);
    assert(s.subrange(start, i) =~= whole);
    lemma_digits_appended(whole, fraction);
    lemma_pow_positive(10, fraction.len());
    assert(all_digits(whole + fraction));
    lemma_numeral_below(whole + fraction);
    lemma_numeral_below(fraction);
    let value = numeral_value(whole);
    let unit = pow(10, fraction.len());
    assert((value + 1) * unit == value * unit + unit) by (nonlinear_arith);
    assert(pow(10, 0) == 1) by {
        reveal(pow);
    }
    if fraction.len() == 0 {
        assert(whole + fraction =~= whole);
        assert(whole + Seq::<char>::empty() =~= whole);
        assert(numeral_value(whole) * 1 == numeral_value(whole));
    } else {
        let end = s.len() as int;
        assert(s[i] == '.');
        assert forall|k: int| i + 1 <= k < end implies is_digit(#[trigger] s[k]) by {
            assert(s[k] == fraction[k - i - 1]);
        }
        lemma_digits_reach(s, i + 1, end);
        assert(s.subrange(i + 1, end) =~= fraction);
    }
}

/// A row of digits behind a prefix ends where it does without it.
proof fn lemma_digits_behind(before: Seq<char>, s: Seq<char>, i: int)
    requires
        0 <= i <= s.len(),
    ensures
        digits_end(before + s, before.len() + i) == before.len() + digits_end(s, i),
        i <= digits_end(s, i) <= s.len(),
    decreases s.len() - i,
{
    if i < s.len() {
        assert((before + s)[before.len() + i] == s[i]);
        if is_digit(s[i]) {
            lemma_digits_behind(before, s, i + 1);
        }
    }
}

/// A numeral behind a sign is read as it is without it.
proof fn lemma_decimal_behind(negative: bool, c: char, s: Seq<char>)
    ensures
        decimal_at(negative, seq![c] + s, 1) == decimal_at(negative, s, 0),
{
    let all = seq![c] + s;
    lemma_digits_behind(seq![c], s, 0);
    let i = digits_end(s, 0);
    assert(all.subrange(1, i + 1) =~= s.subrange(0, i));
    let point = i < s.len() && s[i] == '.';
    assert(point <==> i + 1 < all.len() && all[i + 1] == '.');
    let j = if point {
        digits_end(s, i + 1)
    } else {
        i
    };
    if point {
        lemma_digits_behind(seq![c], s, i + 1);
        assert(all.subrange(i + 2, j + 1) =~= s.subrange(i + 1, j));
    }
    assert(exponent_at(all, j + 1) == exponent_at(s, j)) by {
        if j < s.len() {
            assert(all[j + 1] == s[j]);
            let signed = j + 1 < s.len() && (s[j + 1] == '-' || s[j + 1] == '+');
            let start = if signed {
                j + 2
            } else {
                j + 1
            };
            if j + 1 < s.len() {
                assert(all[j + 2] == s[j + 1]);
            }
            if start < s.len() {
                lemma_digits_behind(seq![c], s, start);
                assert(all.skip(start + 1) =~= s.skip(start));
            }
        }
    }
}

/// A plus sign leaves what a text denotes as it is, and a minus sign makes it negative.
pub proof fn lemma_signs(s: Seq<char>)
    requires
        s.len() > 0 ==> s[0] != '+' && s[0] != '-',
    ensures
        parsed_double(seq!['+'] + s) == parsed_double(s),
        parsed_double(seq!['-'] + s) == match parsed_double(s) {
            Some(Double::Finite { negative, mantissa, exponent }) => Some(
                Double::Finite { negative: true, mantissa, exponent },
            ),
            Some(Double::Infinite { negative }) => Some(Double::Infinite { negative: true }),
            other => other,
        },
{
    assert((seq!['+'] + s).skip(1) =~= s);
    assert((seq!['-'] + s).skip(1) =~= s);
    assert(s.skip(0) =~= s);
    lemma_decimal_behind(false, '+', s);
    lemma_decimal_behind(true, '-', s);
}

/// A numeral with an exponent is read as the value nearest to what its digits denote, with the
/// point moved by as many places: to the right, or to the left behind a minus sign.
pub proof fn lemma_exponent_read(
    whole: Seq<char>,
    fraction: Seq<char>,
    letter: char,
    minus: bool,
    places: Seq<char>,
)
    requires
        all_digits(whole),
        all_digits(fraction),
        all_digits(places),
        whole.len() > 0,
        places.len() > 0,
        letter == 'e' || letter == 'E',
    ensures
        ({
            let moved = if minus {
                -numeral_value(places)
            } else {
                numeral_value(places)
            };
            let least = moved - fraction.len();
            parsed_double(
                decimal_text(whole, fraction) + seq![letter] + signed_text(minus, places),
            ) == Some(
                if least >= 0 {
                    rounded(false, decimal_units(whole, fraction) * pow(10, least as nat), 1)
                } else {
                    rounded(false, decimal_units(whole, fraction), pow(10, (-least) as nat))
                },
            )
        }),
{
    reveal_strlit("inf");
    reveal_strlit("infinity");
    reveal_strlit("nan");
    let body = decimal_text(whole, fraction);
    let s = body + seq![letter] + signed_text(minus, places);
    assert(s.skip(0) =~= s);
    assert(is_digit(whole[0]));
    assert(s[0] == whole[0]);
    assert(ascii_lower(s[0]) == s[0]);
    assert(ascii_lower("inf"@[0]) == 'i');
    assert(ascii_lower("infinity"@[0]) == 'i');
    assert(ascii_lower("nan"@[0]) == 'n');
    let i = whole.len() as int;
    assert forall|k: int| 0 <= k < i implies is_digit(#[trigger] s[k]) by {
        assert(s[k] == whole[k]);
    }
    lemma_digits_appended(whole, fraction);
    let j = body.len() as int;
    assert(s[j] == letter);
    lemma_digits_reach(s, 0, i);
    assert(s.subrange(0, i) =~= whole);
    if fraction.len() == 0 {
        assert(whole + Seq::<char>::empty() =~= whole);
        assert(whole + fraction =~= whole);
    } else {
        assert(s[i] == '.');
        assert forall|k: int| i + 1 <= k < j implies is_digit(#[trigger] s[k]) by {
            assert(s[k] == fraction[k - i - 1]);
        }
        lemma_digits_reach(s, i + 1, j);
        assert(s.subrange(i + 1, j) =~= fraction);
    }
    let start = if minus {
        j + 2
    } else {
        j + 1
    };
    let end = s.len() as int;
    assert forall|k: int| start <= k < end implies is_digit(#[trigger] s[k]) by {
        assert(s[k] == places[k - start]);
    }
    lemma_digits_reach(s, start, end);
    assert(s.skip(start) =~= places);
    if minus {
        assert(s[j + 1] == '-');
    } else {
        assert(is_digit(s[j + 1]));
    }
}

/// A text that denotes a number holds digits, signs, points and the letter E only, and a digit
/// among them, unless it is one of the words for what is infinite or not a number.
pub proof fn lemma_characters_of_a_number(s: Seq<char>)
    requires
        parsed_double(s) is Some,
    ensures
        equal_ignoring_case(s.skip(1), "inf"@) || equal_ignoring_case(s.skip(1), "infinity"@)
            || equal_ignoring_case(s.skip(1), "nan"@) || equal_ignoring_case(s, "inf"@)
            || equal_ignoring_case(s, "infinity"@) || equal_ignoring_case(s, "nan"@) || ((forall|
            k: int,
        |
            0 <= k < s.len() ==> is_digit(#[trigger] s[k]) || s[k] == '.' || s[k] == '-' || s[k]
                == '+' || s[k] == 'e' || s[k] == 'E') && exists|k: int|
            0 <= k < s.len() && is_digit(#[trigger] s[k])),
{
    let signed = s.len() > 0 && (s[0] == '-' || s[0] == '+');
    let start: int = if signed {
        1
    } else {
        0
    };
    assert(s.skip(0) =~= s);
    let i = digits_end(s, start);
    lemma_run_of_digits(s, start);
    let point = i < s.len() && s[i] == '.';
    let j = if point {
        digits_end(s, i + 1)
    } else {
        i
    };
    if point {
        lemma_run_of_digits(s, i + 1);
    }
    if j < s.len() {
        lemma_run_of_digits(s, j + 1);
        if j + 1 < s.len() {
            lemma_run_of_digits(s, j + 2);
        }
    }
    if start < i {
        assert(is_digit(s[start]));
    } else if point && i + 1 < j {
        assert(is_digit(s[i + 1]));
    }
}

proof fn lemma_run_of_digits(s: Seq<char>, i: int)
    requires
        0 <= i <= s.len(),
    ensures
        i <= digits_end(s, i) <= s.len(),
        forall|k: int| i <= k < digits_end(s, i) ==> is_digit(#[trigger] s[k]),
    decreases s.len() - i,
{
    if i < s.len() && is_digit(s[i]) {
        lemma_run_of_digits(s, i + 1);
    }
}

} // verus!
