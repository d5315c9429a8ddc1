//! Times: how they are printed and read, and time stamps in microseconds.

use vstd::arithmetic::div_mod::{
    lemma_div_of0, lemma_div_pos_is_pos, lemma_fundamental_div_mod, lemma_mod_bound,
};
use vstd::arithmetic::power::{lemma_pow_adds, pow};
use vstd::prelude::*;

use crate::binary64::{
    from_u64, lemma_product_of_whole, lemma_rounded_wf, lemma_small_whole, lemma_sum_of_whole,
    lemma_whole_nearest, multiply, nearest_whole, plus, product, rounded, sum, to_nearest_i64,
    Double,
};
use crate::decimal::{
    decimal_text, decimal_units, lemma_decimal_read, lemma_whole_numeral, parse_double,
    parsed_double, signed_text,
};
use crate::precision::{lemma_exact_millionths, lemma_exact_sum_of_millionths};
use crate::text::{
    all_digits, chars_of, joined, lemma_joined_pieces_are_split, lemma_numeral_nonnegative,
    lemma_split_one, lemma_split_three, lemma_split_two, lemma_two_digits, magnitude,
    numeral_value, push_two_digits, rows, split, split_at, two_digits,
};

verus! {

/// The magnitude of a number.
pub open spec fn absolute(x: int) -> int {
    if x < 0 {
        -x
    } else {
        x
    }
}

/// A quotient rounded towards zero.
pub open spec fn truncated_quotient(a: int, b: int) -> int {
    if (a < 0) == (b < 0) {
        absolute(a) / absolute(b)
    } else {
        -(absolute(a) / absolute(b))
    }
}

/// A number of seconds as hours, minutes and seconds.
pub open spec fn clock_text(seconds: int) -> Seq<char> {
    two_digits((seconds / 3600) as nat) + seq![':'] + two_digits((seconds % 3600 / 60) as nat)
        + seq![':'] + two_digits((seconds % 60) as nat)
}

/// A time in microseconds as hours, minutes and whole seconds.
pub open spec fn time_text(us: int) -> Seq<char> {
    let seconds = absolute(us) / 1_000_000;
    if us < 0 {
        seq!['-'] + clock_text(seconds)
    } else {
        clock_text(seconds)
    }
}

/// Formats microseconds as HH:MM:SS.
pub fn format_time(us: i64) -> (r: String)
    ensures
        r@ == time_text(us as int),
{
    let total: u64 = magnitude(us) / 1_000_000;
    let mut out = String::new();
    if us < 0 {
        out.push('-');
    }
    let ghost sign = out@;
    push_two_digits(&mut out, total / 3600);
    out.push(':');
    push_two_digits(&mut out, total % 3600 / 60);
    out.push(':');
    push_two_digits(&mut out, total % 60);
    assert(out@ =~= sign + clock_text(total as int));
    assert(us >= 0 ==> sign + clock_text(total as int) =~= clock_text(total as int));
    out
}

/// Why a text is not a time.
#[derive(Clone, Copy, Debug, PartialEq, Eq, Structural)]
pub enum TimeError {
    /// A part is not a number.
    InvalidNumber,
    /// There are more than three parts.
    InvalidFormat,
}

/// A number of seconds as the nearest number of microseconds.
pub open spec fn microseconds(seconds: Double) -> int {
    nearest_whole(product(seconds, rounded(false, 1_000_000, 1)))
}

/// Hours, minutes and seconds together.
pub open spec fn clock_seconds(h: Double, m: Double, s: Double) -> Double {
    sum(sum(product(h, rounded(false, 3600, 1)), product(m, rounded(false, 60, 1))), s)
}

/// Minutes and seconds together.
pub open spec fn minute_seconds(m: Double, s: Double) -> Double {
    sum(product(m, rounded(false, 60, 1)), s)
}

/// The time that a text denotes.
pub open spec fn parsed_time(s: Seq<char>) -> Result<int, TimeError> {
    let parts = split(s, ':');
    if parts.len() == 1 {
        match parsed_double(parts[0]) {
            Some(x) => Ok(microseconds(x)),
            None => Err(TimeError::InvalidNumber),
        }
    } else if parts.len() == 2 {
        match (parsed_double(parts[0]), parsed_double(parts[1])) {
            (Some(m), Some(x)) => Ok(microseconds(minute_seconds(m, x))),
            _ => Err(TimeError::InvalidNumber),
        }
    } else if parts.len() == 3 {
        match (parsed_double(parts[0]), parsed_double(parts[1]), parsed_double(parts[2])) {
            (Some(h), Some(m), Some(x)) => Ok(microseconds(clock_seconds(h, m, x))),
            _ => Err(TimeError::InvalidNumber),
        }
    } else {
        Err(TimeError::InvalidFormat)
    }
}

/// Converts seconds to the nearest number of microseconds.
pub fn to_microseconds(seconds: Double) -> (r: i64)
    requires
        seconds.wf(),
    ensures
        r == microseconds(seconds),
{
    to_nearest_i64(multiply(seconds, from_u64(1_000_000)))
}

/// Adds hours, minutes and seconds.
pub fn add_clock(h: Double, m: Double, s: Double) -> (r: Double)
    requires
        h.wf(),
        m.wf(),
        s.wf(),
    ensures
        r == clock_seconds(h, m, s),
        r.wf(),
{
    plus(plus(multiply(h, from_u64(3600)), multiply(m, from_u64(60))), s)
}

/// Reads a time (HH:MM:SS, MM:SS, or bare seconds) in microseconds.
pub fn parse_time(s: &str) -> (r: Result<i64, TimeError>)
    ensures
        match r {
            Ok(us) => parsed_time(s@) == Ok::<int, TimeError>(us as int),
            Err(e) => parsed_time(s@) == Err::<int, TimeError>(e),
        },
{
    let v = chars_of(s);
    let parts = split_at(&v, ':');
    let ghost all = split(s@, ':');
    assert(forall|i: int| 0 <= i < parts.len() ==> #[trigger] parts@[i]@ == rows(parts@)[i]);
    if parts.len() == 1 {
        match parse_double(&parts[0]) {
            Some(x) => Ok(to_microseconds(x)),
            None => Err(TimeError::InvalidNumber),
        }
    } else if parts.len() == 2 {
        match (parse_double(&parts[0]), parse_double(&parts[1])) {
            (Some(m), Some(x)) => Ok(to_microseconds(plus(multiply(m, from_u64(60)), x))),
            _ => Err(TimeError::InvalidNumber),
        }
    } else if parts.len() == 3 {
        match (parse_double(&parts[0]), parse_double(&parts[1]), parse_double(&parts[2])) {
            (Some(h), Some(m), Some(x)) => Ok(to_microseconds(add_clock(h, m, x))),
            _ => Err(TimeError::InvalidNumber),
        }
    } else {
        Err(TimeError::InvalidFormat)
    }
}

/// What is printed of a time reads back as its whole seconds: as the double-precision value nearest
/// to them in microseconds, which below `2^59` are those very microseconds.
pub proof fn lemma_time_reads_back(us: int)
    requires
        0 <= us <= i64::MAX,
    ensures
        parsed_time(time_text(us)) == Ok::<int, TimeError>(
            nearest_whole(rounded(false, us / 1_000_000 * 1_000_000, 1)),
        ),
        us < 0x800_0000_0000_0000 ==> parsed_time(time_text(us)) == Ok::<int, TimeError>(
            us / 1_000_000 * 1_000_000,
        ),
{
    let seconds = us / 1_000_000;
    let h = seconds / 3600;
    let m = seconds % 3600 / 60;
    let x = seconds % 60;
    lemma_two_digits(h as nat);
    lemma_two_digits(m as nat);
    lemma_two_digits(x as nat);
    lemma_split_three(two_digits(h as nat), two_digits(m as nat), two_digits(x as nat), ':');
    lemma_whole_numeral(two_digits(h as nat));
    lemma_whole_numeral(two_digits(m as nat));
    lemma_whole_numeral(two_digits(x as nat));
    lemma_small_whole(h);
    lemma_small_whole(m);
    lemma_small_whole(x);
    lemma_small_whole(60);
    lemma_small_whole(3600);
    lemma_small_whole(1_000_000);
    lemma_product_of_whole(rounded(false, h, 1), rounded(false, 3600, 1), h, 3600);
    lemma_product_of_whole(rounded(false, m, 1), rounded(false, 60, 1), m, 60);
    lemma_small_whole(h * 3600);
    lemma_small_whole(m * 60);
    lemma_sum_of_whole(rounded(false, h * 3600, 1), rounded(false, m * 60, 1), h * 3600, m * 60);
    lemma_small_whole(h * 3600 + m * 60);
    lemma_sum_of_whole(
        rounded(false, h * 3600 + m * 60, 1),
        rounded(false, x, 1),
        h * 3600 + m * 60,
        x,
    );
    assert(h * 3600 + m * 60 + x == seconds);
    lemma_small_whole(seconds);
    lemma_product_of_whole(rounded(false, seconds, 1), rounded(false, 1_000_000, 1), seconds, 1_000_000);
    if us < 0x800_0000_0000_0000 {
        lemma_whole_nearest(seconds * 1_000_000);
    }
}

/// What seconds with at most six digits behind the point denote, in microseconds.
pub open spec fn decimal_us(whole: Seq<char>, fraction: Seq<char>) -> int {
    decimal_units(whole, fraction) * pow(10, (6 - fraction.len()) as nat)
}

/// What hours, minutes and seconds denote, in microseconds.
pub open spec fn clock_us(
    h: Seq<char>,
    m: Seq<char>,
    whole: Seq<char>,
    fraction: Seq<char>,
) -> int {
    (numeral_value(h) * 3600 + numeral_value(m) * 60) * 1_000_000 + decimal_us(whole, fraction)
}

/// Digits behind a point and those missing to six.
proof fn lemma_six_digits(k: nat)
    requires
        k <= 6,
    ensures
        pow(10, (6 - k) as nat) * pow(10, k) == 1_000_000,
{
    lemma_pow_adds(10, (6 - k) as nat, k);
    assert(pow(10, 6) == 1_000_000) by {
        reveal_with_fuel(pow, 7);
    }
}

/// Seconds, with a sign and with up to six digits behind the point, are read exactly.
pub proof fn lemma_seconds_exact(negative: bool, whole: Seq<char>, fraction: Seq<char>)
    requires
        all_digits(whole),
        all_digits(fraction),
        whole.len() > 0,
        fraction.len() <= 6,
        numeral_value(whole) < 0x4000_0000,
    ensures
        parsed_double(signed_text(negative, decimal_text(whole, fraction))) matches Some(x)
            && microseconds(x) == if negative {
            -decimal_us(whole, fraction)
        } else {
            decimal_us(whole, fraction)
        },
        parsed_time(signed_text(negative, decimal_text(whole, fraction))) == Ok::<int, TimeError>(
            if negative {
                -decimal_us(whole, fraction)
            } else {
                decimal_us(whole, fraction)
            },
        ),
{
    let s = signed_text(negative, decimal_text(whole, fraction));
    let n = decimal_units(whole, fraction);
    let d = pow(10, fraction.len());
    let v = numeral_value(whole);
    lemma_decimal_read(negative, whole, fraction);
    lemma_six_digits(fraction.len());
    assert(n < d * 0x4000_0000) by (nonlinear_arith)
        requires
            n < (v + 1) * d,
            v < 0x4000_0000,
            d > 0,
    ;
    lemma_exact_millionths(negative, n, d, pow(10, (6 - fraction.len()) as nat));
    lemma_split_one(s, ':');
}

/// Whole minutes or hours as seconds, and what seconds add to them.
proof fn lemma_sum_exact(x: Double, before: int, whole: Seq<char>, fraction: Seq<char>)
    requires
        x == rounded(false, before, 1),
        before >= 0,
        all_digits(whole),
        all_digits(fraction),
        whole.len() > 0,
        fraction.len() <= 6,
        before + numeral_value(whole) < 0x4000_0000,
    ensures
        parsed_double(decimal_text(whole, fraction)) matches Some(y) && microseconds(sum(x, y))
            == before * 1_000_000 + decimal_us(whole, fraction),
{
    let n = decimal_units(whole, fraction);
    let d = pow(10, fraction.len());
    let v = numeral_value(whole);
    lemma_decimal_read(false, whole, fraction);
    lemma_six_digits(fraction.len());
    lemma_numeral_nonnegative(whole);
    assert(before * d + n < d * 0x4000_0000) by (nonlinear_arith)
        requires
            n < (v + 1) * d,
            before + v < 0x4000_0000,
            d > 0,
    ;
    lemma_small_whole(before);
    lemma_rounded_wf(false, before, 1);
    lemma_exact_sum_of_millionths(x, before, n, d, pow(10, (6 - fraction.len()) as nat));
}

/// Minutes and seconds, with up to six digits behind the point, are read exactly.
pub proof fn lemma_minutes_exact(m: Seq<char>, whole: Seq<char>, fraction: Seq<char>)
    requires
        all_digits(m),
        all_digits(whole),
        all_digits(fraction),
        m.len() > 0,
        whole.len() > 0,
        fraction.len() <= 6,
        numeral_value(m) * 60 + numeral_value(whole) < 0x4000_0000,
    ensures
        parsed_time(m + seq![':'] + decimal_text(whole, fraction)) == Ok::<int, TimeError>(
            numeral_value(m) * 60_000_000 + decimal_us(whole, fraction),
        ),
{
    let minutes = numeral_value(m);
    lemma_numeral_nonnegative(m);
    lemma_numeral_nonnegative(whole);
    lemma_whole_numeral(m);
    lemma_small_whole(minutes);
    lemma_small_whole(60);
    lemma_product_of_whole(rounded(false, minutes, 1), rounded(false, 60, 1), minutes, 60);
    lemma_sum_exact(rounded(false, minutes * 60, 1), minutes * 60, whole, fraction);
    lemma_split_two(m, decimal_text(whole, fraction), ':');
}

/// Hours, minutes and seconds, each read as a number, together make the exact time.
pub proof fn lemma_clock_numbers_exact(
    h: Seq<char>,
    m: Seq<char>,
    whole: Seq<char>,
    fraction: Seq<char>,
)
    requires
        all_digits(h),
        all_digits(m),
        all_digits(whole),
        all_digits(fraction),
        h.len() > 0,
        m.len() > 0,
        whole.len() > 0,
        fraction.len() <= 6,
        numeral_value(h) * 3600 + numeral_value(m) * 60 + numeral_value(whole) < 0x4000_0000,
    ensures
        parsed_double(h) is Some,
        parsed_double(m) is Some,
        parsed_double(decimal_text(whole, fraction)) is Some,
        microseconds(
            clock_seconds(
                parsed_double(h).unwrap(),
                parsed_double(m).unwrap(),
                parsed_double(decimal_text(whole, fraction)).unwrap(),
            ),
        ) == clock_us(h, m, whole, fraction),
{
    let hours = numeral_value(h);
    let minutes = numeral_value(m);
    lemma_numeral_nonnegative(h);
    lemma_numeral_nonnegative(m);
    lemma_numeral_nonnegative(whole);
    lemma_whole_numeral(h);
    lemma_whole_numeral(m);
    lemma_small_whole(hours);
    lemma_small_whole(minutes);
    lemma_small_whole(60);
    lemma_small_whole(3600);
    lemma_product_of_whole(rounded(false, hours, 1), rounded(false, 3600, 1), hours, 3600);
    lemma_product_of_whole(rounded(false, minutes, 1), rounded(false, 60, 1), minutes, 60);
    lemma_small_whole(hours * 3600);
    lemma_small_whole(minutes * 60);
    lemma_sum_of_whole(
        rounded(false, hours * 3600, 1),
        rounded(false, minutes * 60, 1),
        hours * 3600,
        minutes * 60,
    );
    let before = hours * 3600 + minutes * 60;
    lemma_sum_exact(rounded(false, before, 1), before, whole, fraction);
}

/// Hours, minutes and seconds, with up to six digits behind the point, are read exactly.
#[verifier::spinoff_prover]
#[verifier::rlimit(50)]
pub proof fn lemma_clock_exact(
    h: Seq<char>,
    m: Seq<char>,
    whole: Seq<char>,
    fraction: Seq<char>,
)
    requires
        all_digits(h),
        all_digits(m),
        all_digits(whole),
        all_digits(fraction),
        h.len() > 0,
        m.len() > 0,
        whole.len() > 0,
        fraction.len() <= 6,
        numeral_value(h) * 3600 + numeral_value(m) * 60 + numeral_value(whole) < 0x4000_0000,
    ensures
        parsed_time(h + seq![':'] + m + seq![':'] + decimal_text(whole, fraction)) == Ok::<
            int,
            TimeError,
        >(clock_us(h, m, whole, fraction)),
{
    lemma_split_three(h, m, decimal_text(whole, fraction), ':');
    let parts = split(h + seq![':'] + m + seq![':'] + decimal_text(whole, fraction), ':');
    assert(parts.len() == 3);
    assert(parts[0] == h);
    assert(parts[1] == m);
    assert(parts[2] == decimal_text(whole, fraction));
    lemma_clock_numbers_exact(h, m, whole, fraction);
}

/// A fraction, such as the length of a stream's time unit in seconds.
#[derive(Clone, Copy, Debug, PartialEq, Eq, Structural)]
pub struct Rational {
    pub num: i32,
    pub den: i32,
}

impl Rational {
    /// A fraction from its two terms.
    pub fn new(num: i32, den: i32) -> (r: Rational)
        ensures
            r.num == num,
            r.den == den,
    {
        Rational { num, den }
    }

    /// The term above the bar.
    pub fn numerator(&self) -> (r: i32)
        ensures
            r == self.num,
    {
        self.num
    }

    /// The term below the bar.
    pub fn denominator(&self) -> (r: i32)
        ensures
            r == self.den,
    {
        self.den
    }
}

/// A time stamp in microseconds, rounded towards zero; zero where the unit has no denominator.
pub open spec fn stamp_us(pts: int, time_base: Rational) -> int {
    if time_base.den == 0 {
        0
    } else {
        truncated_quotient(pts * time_base.num * 1_000_000, time_base.den as int)
    }
}

fn magnitude_128(x: i128) -> (r: u128)
    requires
        x > i128::MIN,
    ensures
        r == absolute(x as int),
{
    if x < 0 {
        (-x) as u128
    } else {
        x as u128
    }
}

/// Converts a time stamp in units of `time_base` to microseconds. A result outside the 64-bit range
/// wraps around.
pub fn pts_to_us(pts: i64, time_base: Rational) -> (r: i64)
    ensures
        r == stamp_us(pts as int, time_base) as i64,
        i64::MIN <= stamp_us(pts as int, time_base) <= i64::MAX ==> r == stamp_us(
            pts as int,
            time_base,
        ),
{
    if time_base.den == 0 {
        return 0;
    }
    let num: i128 = time_base.num as i128;
    let den: i128 = time_base.den as i128;
    let wide: i128 = pts as i128;
    proof {
        let a = wide as int;
        let b = num as int;
        assert(-0x8000_0000_0000_0000_8000_0000 <= a * b <= 0x8000_0000_0000_0000_8000_0000)
            by (nonlinear_arith)
            requires
                -0x8000_0000_0000_0000 <= a <= 0x8000_0000_0000_0000,
                -0x8000_0000 <= b <= 0x8000_0000,
        ;
    }
    let units: i128 = wide * num * 1_000_000;
    let above: u128 = magnitude_128(units);
    let below: u128 = magnitude_128(den);
    let whole: u128 = above / below;
    assert(whole <= above) by (nonlinear_arith)
        requires
            whole == above / below,
            below >= 1,
    ;
    let us: i128 = if (units < 0) == (den < 0) {
        whole as i128
    } else {
        -(whole as i128)
    };
    us as i64
}

/// Hours, minutes and seconds are shown with two digits at least, and what is short of a second is
/// not. A time before zero is shown as the one after it with a minus sign.
pub proof fn lemma_shown_time(h: int, m: int, s: int, below: int)
    requires
        0 <= h,
        0 <= m < 60,
        0 <= s < 60,
        0 <= below < 1_000_000,
    ensures
        ({
            let us = (h * 3600 + m * 60 + s) * 1_000_000 + below;
            let shown = two_digits(h as nat) + seq![':'] + two_digits(m as nat) + seq![':']
                + two_digits(s as nat);
            &&& time_text(us) == shown
            &&& us > 0 ==> time_text(-us) == seq!['-'] + shown
        }),
{
    let us = (h * 3600 + m * 60 + s) * 1_000_000 + below;
    let seconds = h * 3600 + m * 60 + s;
    assert(us / 1_000_000 == seconds);
    assert(seconds / 3600 == h);
    assert(seconds % 3600 / 60 == m);
    assert(seconds % 60 == s);
}

/// A text is refused as a time where it has more than three parts between colons, and where it has
/// fewer but one of them is no number; it is a time where there are at most three and all are
/// numbers.
pub proof fn lemma_refused_times(parts: Seq<Seq<char>>)
    requires
        parts.len() >= 1,
        forall|i: int| 0 <= i < parts.len() ==> !(#[trigger] parts[i]).contains(':'),
    ensures
        ({
            let r = parsed_time(joined(parts, seq![':']));
            let numbers = forall|i: int|
                0 <= i < parts.len() ==> parsed_double(#[trigger] parts[i]) is Some;
            &&& r is Ok <==> parts.len() <= 3 && numbers
            &&& r == Err::<int, TimeError>(TimeError::InvalidFormat) <==> parts.len() > 3
            &&& r == Err::<int, TimeError>(TimeError::InvalidNumber) <==> parts.len() <= 3
                && !numbers
        }),
{
    lemma_joined_pieces_are_split(parts, ':');
    if parts.len() <= 3 {
        if exists|i: int| 0 <= i < parts.len() && parsed_double(#[trigger] parts[i]) is None {
        } else {
            assert forall|i: int| 0 <= i < parts.len() implies parsed_double(
                #[trigger] parts[i],
            ) is Some by {}
        }
    }
}

/// A time stamp is that many units of its stream in whole microseconds, what is left over dropped;
/// one before zero is the opposite of the one after it.
pub proof fn lemma_stamp_in_microseconds(pts: int, time_base: Rational)
    requires
        0 <= pts,
        0 <= time_base.num,
        0 < time_base.den,
    ensures
        ({
            let us = stamp_us(pts, time_base);
            &&& 0 <= us
            &&& us * time_base.den <= pts * time_base.num * 1_000_000
            &&& pts * time_base.num * 1_000_000 < (us + 1) * time_base.den
            &&& stamp_us(-pts, time_base) == -us
        }),
{
    let n = pts * time_base.num * 1_000_000;
    let d = time_base.den as int;
    assert(0 <= n && (-pts) * time_base.num * 1_000_000 == -n) by (nonlinear_arith)
        requires
            0 <= pts,
            0 <= time_base.num,
            n == pts * time_base.num * 1_000_000,
    ;
    lemma_fundamental_div_mod(n, d);
    lemma_mod_bound(n, d);
    lemma_div_pos_is_pos(n, d);
    let us = n / d;
    assert(us * d <= n && n < (us + 1) * d) by (nonlinear_arith)
        requires
            n == d * us + n % d,
            0 <= n % d < d,
    ;
    if n == 0 {
        lemma_div_of0(d);
    }
}

/// A unit without a denominator makes every time stamp zero.
pub proof fn lemma_stamp_without_unit(pts: int, time_base: Rational)
    requires
        time_base.den == 0,
    ensures
        stamp_us(pts, time_base) == 0,
{
}

} // verus!
