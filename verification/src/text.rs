//! Text as sequences of characters: trimming, splitting, numerals.

use vstd::prelude::*;

verus! {

/// `String::push` of the standard library: the character is appended.
pub assume_specification[ String::push ](s: &mut String, c: char)
    ensures
        final(s)@ == old(s)@.push(c),
;

/// Whether a character has the Unicode property White_Space.
pub open spec fn is_space(c: char) -> bool {
    ||| '\u{9}' <= c <= '\u{d}'
    ||| c == ' '
    ||| c == '\u{85}'
    ||| c == '\u{a0}'
    ||| c == '\u{1680}'
    ||| '\u{2000}' <= c <= '\u{200a}'
    ||| c == '\u{2028}'
    ||| c == '\u{2029}'
    ||| c == '\u{202f}'
    ||| c == '\u{205f}'
    ||| c == '\u{3000}'
}

/// Text without the white space it starts with.
pub open spec fn trim_start(s: Seq<char>) -> Seq<char>
    decreases s.len(),
{
    if s.len() > 0 && is_space(s[0]) {
        trim_start(s.drop_first())
    } else {
        s
    }
}

/// Text without the white space it ends with.
pub open spec fn trim_end(s: Seq<char>) -> Seq<char>
    decreases s.len(),
{
    if s.len() > 0 && is_space(s.last()) {
        trim_end(s.drop_last())
    } else {
        s
    }
}

/// Text without the white space at either end.
pub open spec fn trim(s: Seq<char>) -> Seq<char> {
    trim_end(trim_start(s))
}

/// Whether a character is a decimal digit.
pub open spec fn is_digit(c: char) -> bool {
    '0' <= c <= '9'
}

/// The digit that a character stands for.
pub open spec fn digit_value(c: char) -> int {
    c as int - '0' as int
}

/// The character of a digit.
pub open spec fn digit_char(d: int) -> char {
    ('0' as int + d) as char
}

/// The number that a row of digits denotes.
pub open spec fn numeral_value(s: Seq<char>) -> int
    decreases s.len(),
{
    if s.len() == 0 {
        0
    } else {
        numeral_value(s.drop_last()) * 10 + digit_value(s.last())
    }
}

/// Whether a text holds digits alone.
pub open spec fn all_digits(s: Seq<char>) -> bool {
    forall|i: int| 0 <= i < s.len() ==> is_digit(#[trigger] s[i])
}

/// The shortest decimal numeral of a number.
pub open spec fn numeral(n: nat) -> Seq<char>
    decreases n,
{
    if n < 10 {
        seq![digit_char(n as int)]
    } else {
        numeral(n / 10).push(digit_char((n % 10) as int))
    }
}

/// The numeral of a number with a leading zero where it has one digit.
pub open spec fn two_digits(n: nat) -> Seq<char> {
    if n < 10 {
        seq!['0'] + numeral(n)
    } else {
        numeral(n)
    }
}

/// The numeral of a number, with a sign in every case.
pub open spec fn explicit_numeral(n: int) -> Seq<char> {
    if n < 0 {
        seq!['-'] + numeral((-n) as nat)
    } else {
        seq!['+'] + numeral(n as nat)
    }
}

/// Where the row of digits that starts at `i` ends.
pub open spec fn digits_end(s: Seq<char>, i: int) -> int
    decreases s.len() - i,
{
    if 0 <= i < s.len() && is_digit(s[i]) {
        digits_end(s, i + 1)
    } else {
        i
    }
}

/// The number that an unsigned numeral denotes: digits, after a plus sign or not, up to `limit`.
pub open spec fn parsed_unsigned(s: Seq<char>, limit: int) -> Option<int> {
    let start: int = if s.len() > 0 && s[0] == '+' {
        1
    } else {
        0
    };
    if start < s.len() && digits_end(s, start) == s.len() && numeral_value(s.skip(start)) <= limit {
        Some(numeral_value(s.skip(start)))
    } else {
        None
    }
}

/// The first place at or after `i` where `c` stands, the length of `s` where there is none.
pub open spec fn find_char(s: Seq<char>, c: char, i: int) -> int
    decreases s.len() - i,
{
    if 0 <= i < s.len() && s[i] != c {
        find_char(s, c, i + 1)
    } else {
        i
    }
}

/// The pieces of a text from `i` on, between one `c` and the next.
pub open spec fn split_from(s: Seq<char>, c: char, i: int) -> Seq<Seq<char>>
    decreases s.len() - i,
{
    let j = find_char(s, c, i);
    if i <= j < s.len() {
        seq![s.subrange(i, j)] + split_from(s, c, j + 1)
    } else {
        seq![s.skip(i)]
    }
}

/// The pieces of a text between one `c` and the next.
pub open spec fn split(s: Seq<char>, c: char) -> Seq<Seq<char>> {
    split_from(s, c, 0)
}

/// A line without the carriage return it ends with.
pub open spec fn without_return(s: Seq<char>) -> Seq<char> {
    if s.len() > 0 && s.last() == '\r' {
        s.drop_last()
    } else {
        s
    }
}

/// The lines of a text from `i` on. A line ends with a line feed, or with a carriage return and a
/// line feed; the last one may end with the text.
pub open spec fn lines_from(s: Seq<char>, i: int) -> Seq<Seq<char>>
    decreases s.len() - i,
{
    let j = find_char(s, '\n', i);
    if i <= j < s.len() {
        seq![without_return(s.subrange(i, j))] + lines_from(s, j + 1)
    } else if i < s.len() {
        seq![s.skip(i)]
    } else {
        Seq::empty()
    }
}

/// The lines of a text.
pub open spec fn lines(s: Seq<char>) -> Seq<Seq<char>> {
    lines_from(s, 0)
}

/// The contents of a list of rows of characters.
pub open spec fn rows(v: Seq<Vec<char>>) -> Seq<Seq<char>> {
    v.map_values(|s: Vec<char>| s@)
}

/// A text with `to` in place of each `from`.
pub open spec fn replaced(s: Seq<char>, from: char, to: char) -> Seq<char> {
    s.map_values(
        |c: char|
            if c == from {
                to
            } else {
                c
            },
    )
}

/// An ASCII capital as its small letter; every other character as it is.
pub open spec fn ascii_lower(c: char) -> char {
    if 'A' <= c <= 'Z' {
        (c as int + 32) as char
    } else {
        c
    }
}

/// Whether two texts are equal but for the case of ASCII letters.
pub open spec fn equal_ignoring_case(a: Seq<char>, b: Seq<char>) -> bool {
    &&& a.len() == b.len()
    &&& forall|i: int| 0 <= i < a.len() ==> ascii_lower(#[trigger] a[i]) == ascii_lower(b[i])
}

/// Whether `s` starts with `prefix`.
pub open spec fn starts_with(s: Seq<char>, prefix: Seq<char>) -> bool {
    prefix.len() <= s.len() && s.take(prefix.len() as int) == prefix
}

/// Whether `s` ends with `suffix`.
pub open spec fn ends_with(s: Seq<char>, suffix: Seq<char>) -> bool {
    suffix.len() <= s.len() && s.skip(s.len() - suffix.len()) == suffix
}

/// Texts joined with a separator between each two.
pub open spec fn joined(parts: Seq<Seq<char>>, separator: Seq<char>) -> Seq<char>
    decreases parts.len(),
{
    if parts.len() == 0 {
        Seq::empty()
    } else if parts.len() == 1 {
        parts[0]
    } else {
        joined(parts.drop_last(), separator) + separator + parts.last()
    }
}

/// The contents of a list of strings.
pub open spec fn texts(v: Seq<String>) -> Seq<Seq<char>> {
    v.map_values(|s: String| s@)
}

/// The characters of a text.
pub fn chars_of(s: &str) -> (v: Vec<char>)
    ensures
        v@ == s@,
{
    let mut v: Vec<char> = Vec::new();
    for c in it: s.chars()
        invariant
            v@ == it.seq().take(it.index() as int),
            it.seq() == s@,
    {
        v.push(c);
    }
    v
}

/// The text of the characters from `from` up to `to`.
pub fn text_of(v: &Vec<char>, from: usize, to: usize) -> (s: String)
    requires
        from <= to <= v.len(),
    ensures
        s@ == v@.subrange(from as int, to as int),
{
    let mut s = String::new();
    let mut i: usize = from;
    while i < to
        invariant
            from <= i <= to <= v.len(),
            s@ == v@.subrange(from as int, i as int),
        decreases to - i,
    {
        s.push(v[i]);
        i = i + 1;
        assert(v@.subrange(from as int, i as int) =~= v@.subrange(from as int, i - 1).push(v@[i - 1]));
    }
    s
}

/// Whether two texts are equal.
pub fn same_text(a: &str, b: &str) -> (r: bool)
    ensures
        r == (a@ == b@),
{
    let x: String = a.to_string();
    let y: String = b.to_string();
    x == y
}

/// Appends a text.
pub fn append(out: &mut String, s: &str)
    ensures
        final(out)@ == old(out)@ + s@,
{
    let v = chars_of(s);
    let mut i: usize = 0;
    while i < v.len()
        invariant
            i <= v.len(),
            out@ == old(out)@ + v@.take(i as int),
        decreases v.len() - i,
    {
        out.push(v[i]);
        i = i + 1;
        assert(v@.take(i as int) =~= v@.take(i - 1).push(v@[i - 1]));
    }
    assert(v@.take(i as int) =~= v@);
}

/// Whether a character is white space.
pub fn space(c: char) -> (r: bool)
    ensures
        r == is_space(c),
{
    ('\u{9}' <= c && c <= '\u{d}') || c == ' ' || c == '\u{85}' || c == '\u{a0}' || c == '\u{1680}'
        || ('\u{2000}' <= c && c <= '\u{200a}') || c == '\u{2028}' || c == '\u{2029}' || c
        == '\u{202f}' || c == '\u{205f}' || c == '\u{3000}'
}

/// Whether a character is a decimal digit.
pub fn digit(c: char) -> (r: bool)
    ensures
        r == is_digit(c),
{
    '0' <= c && c <= '9'
}

/// The bounds of a text without the white space at either end.
pub fn trim_bounds(v: &Vec<char>) -> (r: (usize, usize))
    ensures
        r.0 <= r.1 <= v.len(),
        v@.subrange(r.0 as int, r.1 as int) == trim(v@),
{
    let mut from: usize = 0;
    assert(v@.skip(0) =~= v@);
    while from < v.len() && space(v[from])
        invariant
            from <= v.len(),
            trim_start(v@) == trim_start(v@.skip(from as int)),
        decreases v.len() - from,
    {
        assert(v@.skip(from as int).drop_first() =~= v@.skip(from + 1));
        from = from + 1;
    }
    let ghost head = v@.skip(from as int);
    assert(trim_start(v@) == head);
    let mut to: usize = v.len();
    assert(v@.subrange(from as int, to as int) =~= head);
    while from < to && space(v[to - 1])
        invariant
            from <= to <= v.len(),
            trim_end(head) == trim_end(v@.subrange(from as int, to as int)),
        decreases to,
    {
        assert(v@.subrange(from as int, to as int).drop_last() =~= v@.subrange(
            from as int,
            to - 1,
        ));
        to = to - 1;
    }
    (from, to)
}

/// A text without the white space at either end.
pub fn trimmed(v: &Vec<char>) -> (r: Vec<char>)
    ensures
        r@ == trim(v@),
{
    let (from, to) = trim_bounds(v);
    chars_between(v, from, to)
}

/// The characters from `from` up to `to`.
pub fn chars_between(v: &Vec<char>, from: usize, to: usize) -> (r: Vec<char>)
    requires
        from <= to <= v.len(),
    ensures
        r@ == v@.subrange(from as int, to as int),
{
    let mut r: Vec<char> = Vec::new();
    let mut i: usize = from;
    while i < to
        invariant
            from <= i <= to <= v.len(),
            r@ == v@.subrange(from as int, i as int),
        decreases to - i,
    {
        r.push(v[i]);
        i = i + 1;
        assert(v@.subrange(from as int, i as int) =~= v@.subrange(from as int, i - 1).push(v@[i - 1]));
    }
    r
}

/// Appends the numeral of a number.
pub fn push_numeral(out: &mut String, n: u64)
    ensures
        final(out)@ == old(out)@ + numeral(n as nat),
    decreases n,
{
    if n >= 10 {
        push_numeral(out, n / 10);
    }
    let d: u8 = (n % 10) as u8;
    let c: char = (48u8 + d) as char;
    assert(c == digit_char((n % 10) as int));
    out.push(c);
    proof {
        if n >= 10 {
            assert(old(out)@ + numeral((n / 10) as nat).push(c) =~= (old(out)@ + numeral(
                (n / 10) as nat,
            )).push(c));
        } else {
            assert(old(out)@ + seq![c] =~= old(out)@.push(c));
        }
    }
}

/// Appends the numeral of a number with a leading zero where it has one digit.
pub fn push_two_digits(out: &mut String, n: u64)
    ensures
        final(out)@ == old(out)@ + two_digits(n as nat),
{
    if n < 10 {
        out.push('0');
    }
    push_numeral(out, n);
    proof {
        if n < 10 {
            assert(old(out)@.push('0') + numeral(n as nat) =~= old(out)@ + (seq!['0'] + numeral(
                n as nat,
            )));
        }
    }
}

/// The magnitude of a signed number.
pub fn magnitude(n: i64) -> (r: u64)
    ensures
        r == if n < 0 {
            -n
        } else {
            n as int
        },
{
    if n == i64::MIN {
        0x8000_0000_0000_0000
    } else if n < 0 {
        (-n) as u64
    } else {
        n as u64
    }
}

/// Appends the numeral of a number with a sign in every case.
pub fn push_explicit(out: &mut String, n: i64)
    ensures
        final(out)@ == old(out)@ + explicit_numeral(n as int),
{
    if n < 0 {
        out.push('-');
    } else {
        out.push('+');
    }
    let m: u64 = magnitude(n);
    push_numeral(out, m);
    proof {
        let sign = if n < 0 {
            '-'
        } else {
            '+'
        };
        assert(old(out)@.push(sign) + numeral(m as nat) =~= old(out)@ + (seq![sign] + numeral(
            m as nat,
        )));
    }
}

/// Where the row of digits that starts at `from` ends.
pub fn end_of_digits(v: &Vec<char>, from: usize) -> (r: usize)
    requires
        from <= v.len(),
    ensures
        from <= r <= v.len(),
        r == digits_end(v@, from as int),
        forall|i: int| from <= i < r ==> is_digit(#[trigger] v@[i]),
{
    let mut i: usize = from;
    while i < v.len() && digit(v[i])
        invariant
            from <= i <= v.len(),
            digits_end(v@, from as int) == digits_end(v@, i as int),
            forall|j: int| from <= j < i ==> is_digit(#[trigger] v@[j]),
        decreases v.len() - i,
    {
        i = i + 1;
    }
    i
}

/// A row of digits denotes a natural number, and one more digit no smaller one.
pub proof fn lemma_numeral_value_grows(s: Seq<char>, i: int)
    requires
        0 <= i <= s.len(),
        forall|j: int| 0 <= j < s.len() ==> is_digit(#[trigger] s[j]),
    ensures
        0 <= numeral_value(s.take(i)) <= numeral_value(s),
    decreases s.len() - i, i,
{
    if i < s.len() {
        lemma_numeral_value_grows(s, i + 1);
        assert(s.take(i + 1).drop_last() =~= s.take(i));
        lemma_numeral_nonnegative(s.take(i));
        assert(is_digit(s[i]));
    } else {
        assert(s.take(i) =~= s);
        lemma_numeral_nonnegative(s);
    }
}

/// A row of digits denotes no negative number.
pub proof fn lemma_numeral_nonnegative(s: Seq<char>)
    requires
        forall|j: int| 0 <= j < s.len() ==> is_digit(#[trigger] s[j]),
    ensures
        numeral_value(s) >= 0,
    decreases s.len(),
{
    if s.len() > 0 {
        assert(forall|j: int| 0 <= j < s.drop_last().len() ==> s.drop_last()[j] == s[j]);
        lemma_numeral_nonnegative(s.drop_last());
        assert(is_digit(s[s.len() - 1]));
    }
}

proof fn lemma_digits_run(s: Seq<char>, i: int)
    requires
        0 <= i,
    ensures
        i <= digits_end(s, i),
        forall|k: int| i <= k < digits_end(s, i) ==> is_digit(#[trigger] s[k]),
    decreases s.len() - i,
{
    if i < s.len() && is_digit(s[i]) {
        lemma_digits_run(s, i + 1);
    }
}

/// An unsigned numeral denotes a natural number.
pub proof fn lemma_unsigned_nonnegative(s: Seq<char>, limit: int)
    ensures
        parsed_unsigned(s, limit) matches Some(n) ==> 0 <= n <= limit,
{
    let start: int = if s.len() > 0 && s[0] == '+' {
        1
    } else {
        0
    };
    lemma_digits_run(s, start);
    if start < s.len() && digits_end(s, start) == s.len() {
        let rest = s.skip(start);
        assert forall|j: int| 0 <= j < rest.len() implies is_digit(#[trigger] rest[j]) by {
            assert(rest[j] == s[start + j]);
        }
        lemma_numeral_nonnegative(rest);
    }
}

/// Reads an unsigned numeral of at most `limit`.
pub fn parse_unsigned(v: &Vec<char>, limit: u64) -> (r: Option<u64>)
    ensures
        match r {
            Some(n) => parsed_unsigned(v@, limit as int) == Some(n as int),
            None => parsed_unsigned(v@, limit as int) is None,
        },
{
    let start: usize = if v.len() > 0 && v[0] == '+' {
        1
    } else {
        0
    };
    let end: usize = end_of_digits(v, start);
    if start >= v.len() || end < v.len() {
        return None;
    }
    let ghost body = v@.skip(start as int);
    let mut n: u64 = 0;
    let mut i: usize = start;
    assert(body.take(0) =~= Seq::<char>::empty());
    while i < v.len()
        invariant
            start <= i <= v.len(),
            body == v@.skip(start as int),
            forall|j: int| start <= j < v.len() ==> is_digit(#[trigger] v@[j]),
            n == numeral_value(body.take(i - start)),
            n <= limit,
            start < v.len(),
            digits_end(v@, start as int) == v.len(),
            start == if v.len() > 0 && v@[0] == '+' { 1int } else { 0 },
        decreases v.len() - i,
    {
        let d: u64 = (v[i] as u32 - '0' as u32) as u64;
        let wide: u128 = (n as u128) * 10 + d as u128;
        proof {
            assert(body.take(i + 1 - start).drop_last() =~= body.take(i - start));
            assert(body.take(i + 1 - start).last() == v@[i as int]);
            assert(wide == numeral_value(body.take(i + 1 - start)));
            assert(forall|j: int| 0 <= j < body.len() ==> is_digit(#[trigger] body[j])) by {
                assert(forall|j: int| 0 <= j < body.len() ==> body[j] == v@[j + start]);
            }
            lemma_numeral_value_grows(body, i + 1 - start);
        }
        if wide > limit as u128 {
            return None;
        }
        n = wide as u64;
        i = i + 1;
    }
    assert(body.take(i - start) =~= body);
    Some(n)
}

/// The first place at or after `from` where `c` stands, the length of `v` where there is none.
pub fn position_of(v: &Vec<char>, c: char, from: usize) -> (r: usize)
    requires
        from <= v.len(),
    ensures
        from <= r <= v.len(),
        r == find_char(v@, c, from as int),
        r < v.len() ==> v@[r as int] == c,
        forall|i: int| from <= i < r ==> v@[i] != c,
{
    let mut i: usize = from;
    while i < v.len() && v[i] != c
        invariant
            from <= i <= v.len(),
            find_char(v@, c, from as int) == find_char(v@, c, i as int),
            forall|j: int| from <= j < i ==> v@[j] != c,
        decreases v.len() - i,
    {
        i = i + 1;
    }
    i
}

/// An ASCII capital as its small letter; every other character as it is.
pub fn to_lower(c: char) -> (r: char)
    ensures
        r == ascii_lower(c),
{
    if 'A' <= c && c <= 'Z' {
        let b: u8 = (c as u32 + 32) as u8;
        b as char
    } else {
        c
    }
}

/// Whether two texts are equal but for the case of ASCII letters.
pub fn same_ignoring_case(a: &Vec<char>, b: &Vec<char>) -> (r: bool)
    ensures
        r == equal_ignoring_case(a@, b@),
{
    if a.len() != b.len() {
        return false;
    }
    let mut i: usize = 0;
    while i < a.len()
        invariant
            i <= a.len(),
            a.len() == b.len(),
            forall|j: int| 0 <= j < i ==> ascii_lower(#[trigger] a@[j]) == ascii_lower(b@[j]),
        decreases a.len() - i,
    {
        if to_lower(a[i]) != to_lower(b[i]) {
            assert(ascii_lower(a@[i as int]) != ascii_lower(b@[i as int]));
            return false;
        }
        i = i + 1;
    }
    true
}

/// Splits a text at each `c`.
pub fn split_at(v: &Vec<char>, c: char) -> (r: Vec<Vec<char>>)
    ensures
        rows(r@) == split(v@, c),
{
    let mut out: Vec<Vec<char>> = Vec::new();
    let mut i: usize = 0;
    assert(rows(out@) + split_from(v@, c, 0) =~= split(v@, c));
    loop
        invariant
            i <= v.len(),
            rows(out@) + split_from(v@, c, i as int) == split(v@, c),
        decreases v.len() - i,
    {
        let j: usize = position_of(v, c, i);
        let piece = chars_between(v, i, j);
        let ghost before = out@;
        out.push(piece);
        assert(rows(out@) =~= rows(before).push(piece@));
        if j == v.len() {
            assert(v@.subrange(i as int, j as int) =~= v@.skip(i as int));
            assert(rows(out@) =~= rows(before) + seq![piece@]);
            return out;
        }
        assert(rows(before).push(piece@) + split_from(v@, c, j + 1) =~= rows(before) + (
        seq![piece@] + split_from(v@, c, j + 1)));
        i = j + 1;
    }
}

/// Splits a text into lines.
pub fn split_lines(v: &Vec<char>) -> (r: Vec<Vec<char>>)
    ensures
        rows(r@) == lines(v@),
{
    let mut out: Vec<Vec<char>> = Vec::new();
    let mut i: usize = 0;
    assert(rows(out@) + lines_from(v@, 0) =~= lines(v@));
    while i < v.len()
        invariant
            i <= v.len(),
            rows(out@) + lines_from(v@, i as int) == lines(v@),
        decreases v.len() - i,
    {
        let j: usize = position_of(v, '\n', i);
        let ghost before = out@;
        if j == v.len() {
            let piece = chars_between(v, i, j);
            assert(piece@ =~= v@.skip(i as int));
            out.push(piece);
            assert(rows(out@) =~= rows(before) + seq![piece@]);
            return out;
        }
        let end: usize = if j > i && v[j - 1] == '\r' {
            j - 1
        } else {
            j
        };
        let piece = chars_between(v, i, end);
        assert(piece@ =~= without_return(v@.subrange(i as int, j as int)));
        out.push(piece);
        assert(rows(out@) =~= rows(before).push(piece@));
        assert(rows(before).push(piece@) + lines_from(v@, j + 1) =~= rows(before) + (seq![piece@]
            + lines_from(v@, j + 1)));
        i = j + 1;
    }
    assert(find_char(v@, '\n', i as int) == i);
    assert(rows(out@) + Seq::<Seq<char>>::empty() =~= rows(out@));
    out
}

/// Puts `to` in place of each `from`.
pub fn replace_char(v: &Vec<char>, from: char, to: char) -> (r: Vec<char>)
    ensures
        r@ == replaced(v@, from, to),
{
    let mut out: Vec<char> = Vec::new();
    let mut i: usize = 0;
    while i < v.len()
        invariant
            i <= v.len(),
            out@ == replaced(v@.take(i as int), from, to),
        decreases v.len() - i,
    {
        out.push(
            if v[i] == from {
                to
            } else {
                v[i]
            },
        );
        i = i + 1;
        assert(v@.take(i as int) =~= v@.take(i - 1).push(v@[i - 1]));
        assert(out@ =~= replaced(v@.take(i as int), from, to));
    }
    assert(v@.take(i as int) =~= v@);
    out
}

/// Whether the characters at `at` are those of `word`.
pub fn stands_at(v: &Vec<char>, word: &Vec<char>, at: usize) -> (r: bool)
    requires
        at <= v.len(),
    ensures
        r == (at + word.len() <= v.len() && v@.subrange(at as int, at + word.len()) == word@),
{
    if v.len() - at < word.len() {
        return false;
    }
    let mut i: usize = 0;
    while i < word.len()
        invariant
            i <= word.len(),
            at + word.len() <= v.len(),
            forall|j: int| 0 <= j < i ==> v@[at + j] == word@[j],
        decreases word.len() - i,
    {
        if v[at + i] != word[i] {
            proof {
                let part = v@.subrange(at as int, at + word.len());
                assert(part[i as int] != word@[i as int]);
            }
            return false;
        }
        i = i + 1;
    }
    assert(v@.subrange(at as int, at + word.len()) =~= word@);
    true
}

/// Whether a text starts with another.
pub fn has_prefix(v: &Vec<char>, prefix: &Vec<char>) -> (r: bool)
    ensures
        r == starts_with(v@, prefix@),
{
    let r: bool = stands_at(v, prefix, 0);
    assert(prefix.len() <= v.len() ==> v@.subrange(0, prefix.len() as int) =~= v@.take(
        prefix.len() as int,
    ));
    r
}

/// Whether a text ends with another.
pub fn has_suffix(v: &Vec<char>, suffix: &Vec<char>) -> (r: bool)
    ensures
        r == ends_with(v@, suffix@),
{
    if v.len() < suffix.len() {
        return false;
    }
    let at: usize = v.len() - suffix.len();
    assert(v@.subrange(at as int, v.len() as int) =~= v@.skip(at as int));
    stands_at(v, suffix, at)
}

/// Texts joined with a separator between each two.
pub fn join(parts: &Vec<String>, separator: &str) -> (r: String)
    ensures
        r@ == joined(texts(parts@), separator@),
{
    let mut out = String::new();
    let ghost all = texts(parts@);
    let mut i: usize = 0;
    while i < parts.len()
        invariant
            i <= parts.len(),
            all == texts(parts@),
            out@ == joined(all.take(i as int), separator@),
        decreases parts.len() - i,
    {
        if i > 0 {
            append(&mut out, separator);
        }
        append(&mut out, parts[i].as_str());
        proof {
            let next = all.take(i + 1);
            assert(next.drop_last() =~= all.take(i as int));
            assert(next.last() == parts@[i as int]@);
            if i == 0 {
                assert(next[0] == parts@[0]@);
                assert(Seq::<char>::empty() + next[0] =~= next[0]);
            }
        }
        i = i + 1;
    }
    assert(all.take(i as int) =~= all);
    out
}

/// A numeral is a row of digits that denotes the number it was made from.
pub proof fn lemma_numeral(n: nat)
    ensures
        numeral(n).len() > 0,
        forall|i: int| 0 <= i < numeral(n).len() ==> is_digit(#[trigger] numeral(n)[i]),
        numeral_value(numeral(n)) == n,
    decreases n,
{
    if n < 10 {
        assert(numeral(n).drop_last() =~= Seq::empty());
        assert(numeral_value(Seq::<char>::empty()) == 0);
    } else {
        lemma_numeral(n / 10);
        assert(numeral(n).drop_last() =~= numeral(n / 10));
    }
}

/// A numeral of at least two digits denotes the number it was made from, too.
pub proof fn lemma_two_digits(n: nat)
    ensures
        two_digits(n).len() > 0,
        forall|i: int| 0 <= i < two_digits(n).len() ==> is_digit(#[trigger] two_digits(n)[i]),
        numeral_value(two_digits(n)) == n,
{
    lemma_numeral(n);
    if n < 10 {
        let s = two_digits(n);
        assert(s =~= seq!['0', digit_char(n as int)]);
        assert(s.drop_last() =~= seq!['0']);
        assert(seq!['0'].drop_last() =~= Seq::empty());
        assert(numeral_value(Seq::<char>::empty()) == 0);
        assert(numeral_value(seq!['0']) == 0);
    }
}

/// Where a row of digits reaches up to `j`, it ends there.
pub proof fn lemma_digits_reach(s: Seq<char>, i: int, j: int)
    requires
        0 <= i <= j <= s.len(),
        forall|k: int| i <= k < j ==> is_digit(#[trigger] s[k]),
        j == s.len() || !is_digit(s[j]),
    ensures
        digits_end(s, i) == j,
    decreases j - i,
{
    if i < j {
        assert(is_digit(s[i]));
        lemma_digits_reach(s, i + 1, j);
    }
}

/// Where `c` first stands at `j`, it is found there.
pub proof fn lemma_found(s: Seq<char>, c: char, i: int, j: int)
    requires
        0 <= i <= j <= s.len(),
        forall|k: int| i <= k < j ==> #[trigger] s[k] != c,
        j == s.len() || s[j] == c,
    ensures
        find_char(s, c, i) == j,
    decreases j - i,
{
    if i < j {
        assert(s[i] != c);
        lemma_found(s, c, i + 1, j);
    }
}

/// A text without the separator is one piece.
pub proof fn lemma_split_one(a: Seq<char>, c: char)
    requires
        forall|i: int| 0 <= i < a.len() ==> #[trigger] a[i] != c,
    ensures
        split(a, c) == seq![a],
{
    lemma_found(a, c, 0, a.len() as int);
    assert(a.skip(0) =~= a);
}

/// Two pieces with a separator between them are split there.
pub proof fn lemma_split_two(a: Seq<char>, b: Seq<char>, c: char)
    requires
        forall|i: int| 0 <= i < a.len() ==> #[trigger] a[i] != c,
        forall|i: int| 0 <= i < b.len() ==> #[trigger] b[i] != c,
    ensures
        split(a + seq![c] + b, c) == seq![a, b],
{
    let s = a + seq![c] + b;
    let first = a.len() as int;
    assert forall|k: int| first + 1 <= k < s.len() implies #[trigger] s[k] != c by {
        assert(s[k] == b[k - first - 1]);
    }
    lemma_found(s, c, 0, first);
    lemma_found(s, c, first + 1, s.len() as int);
    assert(s.subrange(0, first) =~= a);
    assert(s.skip(first + 1) =~= b);
    assert(split_from(s, c, first + 1) == seq![b]);
    assert(seq![a] + seq![b] =~= seq![a, b]);
}

/// Three pieces with a separator between each two are split at the separators.
pub proof fn lemma_split_three(a: Seq<char>, b: Seq<char>, d: Seq<char>, c: char)
    requires
        forall|i: int| 0 <= i < a.len() ==> #[trigger] a[i] != c,
        forall|i: int| 0 <= i < b.len() ==> #[trigger] b[i] != c,
        forall|i: int| 0 <= i < d.len() ==> #[trigger] d[i] != c,
    ensures
        split(a + seq![c] + b + seq![c] + d, c) == seq![a, b, d],
{
    let s = a + seq![c] + b + seq![c] + d;
    let first = a.len() as int;
    let second = first + 1 + b.len();
    assert forall|k: int| first + 1 <= k < second implies #[trigger] s[k] != c by {
        assert(s[k] == b[k - first - 1]);
    }
    assert forall|k: int| second + 1 <= k < s.len() implies #[trigger] s[k] != c by {
        assert(s[k] == d[k - second - 1]);
    }
    lemma_found(s, c, 0, first);
    lemma_found(s, c, first + 1, second);
    lemma_found(s, c, second + 1, s.len() as int);
    assert(s.subrange(0, first) =~= a);
    assert(s.subrange(first + 1, second) =~= b);
    assert(s.skip(second + 1) =~= d);
    assert(split_from(s, c, second + 1) =~= seq![d]);
    assert(split_from(s, c, first + 1) =~= seq![b, d]);
    assert(split_from(s, c, 0) =~= seq![a, b, d]);
}

proof fn lemma_trim_start_part(s: Seq<char>)
    ensures
        forall|c: char| #[trigger] trim_start(s).contains(c) ==> s.contains(c),
    decreases s.len(),
{
    if s.len() > 0 && is_space(s[0]) {
        lemma_trim_start_part(s.drop_first());
        assert forall|c: char| #[trigger] trim_start(s).contains(c) implies s.contains(c) by {
            assert(trim_start(s.drop_first()).contains(c));
            let k = choose|k: int| 0 <= k < s.drop_first().len() && s.drop_first()[k] == c;
            assert(s[k + 1] == c);
        }
    }
}

proof fn lemma_trim_end_part(s: Seq<char>)
    ensures
        forall|c: char| #[trigger] trim_end(s).contains(c) ==> s.contains(c),
    decreases s.len(),
{
    if s.len() > 0 && is_space(s.last()) {
        lemma_trim_end_part(s.drop_last());
        assert forall|c: char| #[trigger] trim_end(s).contains(c) implies s.contains(c) by {
            assert(trim_end(s.drop_last()).contains(c));
            let k = choose|k: int| 0 <= k < s.drop_last().len() && s.drop_last()[k] == c;
            assert(s[k] == c);
        }
    }
}

/// Trimming adds no character.
pub proof fn lemma_trimmed_part(s: Seq<char>)
    ensures
        forall|c: char| #[trigger] trim(s).contains(c) ==> s.contains(c),
{
    lemma_trim_start_part(s);
    lemma_trim_end_part(trim_start(s));
}

/// Lines, each with a line feed behind it.
pub open spec fn lines_text(ls: Seq<Seq<char>>) -> Seq<char>
    decreases ls.len(),
{
    if ls.len() == 0 {
        Seq::empty()
    } else {
        ls[0] + seq!['\n'] + lines_text(ls.drop_first())
    }
}

/// Whether a text is one line: it holds no line feed, and ends with no carriage return.
pub open spec fn is_line(l: Seq<char>) -> bool {
    &&& forall|i: int| 0 <= i < l.len() ==> #[trigger] l[i] != '\n'
    &&& l.len() > 0 ==> l[l.len() - 1] != '\r'
}

proof fn lemma_lines_from(before: Seq<char>, ls: Seq<Seq<char>>)
    requires
        forall|i: int| 0 <= i < ls.len() ==> is_line(#[trigger] ls[i]),
    ensures
        lines_from(before + lines_text(ls), before.len() as int) == ls,
    decreases ls.len(),
{
    let s = before + lines_text(ls);
    let i = before.len() as int;
    if ls.len() > 0 {
        let l = ls[0];
        let rest = ls.drop_first();
        let j = i + l.len();
        assert(is_line(l));
        assert forall|k: int| i <= k < j implies #[trigger] s[k] != '\n' by {
            assert(s[k] == l[k - i]);
        }
        assert(s[j] == '\n');
        lemma_found(s, '\n', i, j);
        assert(s.subrange(i, j) =~= l);
        assert(without_return(l) == l);
        let next = before + l + seq!['\n'];
        assert(s =~= next + lines_text(rest));
        assert forall|k: int| 0 <= k < rest.len() implies is_line(#[trigger] rest[k]) by {
            assert(rest[k] == ls[k + 1]);
        }
        lemma_lines_from(next, rest);
        assert(seq![l] + rest =~= ls);
    } else {
        assert(s =~= before);
        assert(lines_from(s, i) =~= ls);
    }
}

/// Lines that were written one behind the other are found again as they were.
pub proof fn lemma_lines_read_back(ls: Seq<Seq<char>>)
    requires
        forall|i: int| 0 <= i < ls.len() ==> is_line(#[trigger] ls[i]),
    ensures
        lines(lines_text(ls)) == ls,
{
    lemma_lines_from(Seq::empty(), ls);
    assert(Seq::<char>::empty() + lines_text(ls) =~= lines_text(ls));
}

/// A carriage return before a line feed is no part of the line.
pub proof fn lemma_carriage_returns_are_dropped(l: Seq<char>)
    ensures
        without_return(l.push('\r')) == l,
        l.len() > 0 && l[l.len() - 1] != '\r' ==> without_return(l) == l,
        without_return(Seq::empty()) == Seq::<char>::empty(),
{
    assert(l.push('\r').drop_last() =~= l);
}

/// Joined lines hold each line whole, with the separator between each two.
pub proof fn lemma_joined_lines(parts: Seq<Seq<char>>)
    requires
        parts.len() > 0,
    ensures
        joined(parts, "\n"@) + seq!['\n'] == lines_text(parts),
    decreases parts.len(),
{
    reveal_strlit("\n");
    assert("\n"@ =~= seq!['\n']);
    if parts.len() == 1 {
        assert(parts.drop_first() =~= Seq::empty());
        assert(lines_text(parts.drop_first()) =~= Seq::empty());
        assert(joined(parts, "\n"@) + seq!['\n'] =~= lines_text(parts));
    } else {
        lemma_joined_lines(parts.drop_last());
        lemma_lines_text_push(parts.drop_last(), parts.last());
        assert(parts.drop_last().push(parts.last()) =~= parts);
        assert(joined(parts, "\n"@) + seq!['\n'] =~= lines_text(parts.drop_last()) + parts.last()
            + seq!['\n']);
    }
}

proof fn lemma_lines_text_push(ls: Seq<Seq<char>>, l: Seq<char>)
    ensures
        lines_text(ls.push(l)) == lines_text(ls) + l + seq!['\n'],
    decreases ls.len(),
{
    reveal_with_fuel(lines_text, 2);
    let all = ls.push(l);
    if ls.len() == 0 {
        assert(all.drop_first() =~= Seq::empty());
        assert(lines_text(all) =~= lines_text(ls) + l + seq!['\n']);
    } else {
        lemma_lines_text_push(ls.drop_first(), l);
        assert(all.drop_first() =~= ls.drop_first().push(l));
        assert(lines_text(all) =~= lines_text(ls) + l + seq!['\n']);
    }
}

/// What white space is: blanks, tabs, line feeds and carriage returns, and no character that is seen
/// in ASCII.
pub proof fn lemma_white_space(c: char)
    ensures
        is_space(' ') && is_space('\t') && is_space('\n') && is_space('\r'),
        '!' <= c <= '~' ==> !is_space(c),
{
}

/// Trimming takes white space off both ends and nothing else: a text that starts and ends with
/// something to see stays whole, and white space around it goes.
pub proof fn lemma_trimmed(s: Seq<char>)
    ensures
        s.len() > 0 && !is_space(s[0]) && !is_space(s[s.len() - 1]) ==> trim(s) == s,
        (exists|i: int| 0 <= i < s.len() && !is_space(#[trigger] s[i])) ==> trim(s).len() > 0,
        (forall|i: int| 0 <= i < s.len() ==> is_space(#[trigger] s[i])) ==> trim(s).len() == 0,
        trim(s).len() > 0 ==> !is_space(trim(s)[0]) && !is_space(trim(s)[trim(s).len() - 1]),
{
    lemma_trim_start_shape(s);
    lemma_trim_end_shape(trim_start(s));
    let t = trim_start(s);
    if exists|i: int| 0 <= i < s.len() && !is_space(#[trigger] s[i]) {
        assert(t.len() > 0);
        assert(!is_space(t[0]));
    }
    if t.len() > 0 {
        assert(!is_space(t[0]));
        let u = trim_end(t);
        assert(u.len() > 0);
        assert(u[0] == t[0]);
    }
}

proof fn lemma_trim_start_shape(s: Seq<char>)
    ensures
        trim_start(s).len() <= s.len(),
        trim_start(s) == s.skip(s.len() - trim_start(s).len()),
        forall|i: int| 0 <= i < s.len() - trim_start(s).len() ==> is_space(#[trigger] s[i]),
        trim_start(s).len() > 0 ==> !is_space(trim_start(s)[0]),
    decreases s.len(),
{
    if s.len() > 0 && is_space(s[0]) {
        let rest = s.drop_first();
        lemma_trim_start_shape(rest);
        let n = trim_start(s).len();
        assert(rest.skip(rest.len() - n) =~= s.skip(s.len() - n));
        assert forall|i: int| 0 <= i < s.len() - n implies is_space(#[trigger] s[i]) by {
            if i > 0 {
                assert(s[i] == rest[i - 1]);
            }
        }
    } else {
        assert(s.skip(0) =~= s);
    }
}

proof fn lemma_trim_end_shape(s: Seq<char>)
    ensures
        trim_end(s).len() <= s.len(),
        trim_end(s) == s.take(trim_end(s).len() as int),
        forall|i: int| trim_end(s).len() <= i < s.len() ==> is_space(#[trigger] s[i]),
        trim_end(s).len() > 0 ==> !is_space(trim_end(s)[trim_end(s).len() - 1]),
    decreases s.len(),
{
    if s.len() > 0 && is_space(s.last()) {
        let rest = s.drop_last();
        lemma_trim_end_shape(rest);
        let n = trim_end(s).len();
        assert(rest.take(n as int) =~= s.take(n as int));
        assert forall|i: int| n <= i < s.len() implies is_space(#[trigger] s[i]) by {
            if i < s.len() - 1 {
                assert(s[i] == rest[i]);
            }
        }
    } else {
        assert(s.take(s.len() as int) =~= s);
    }
}

/// A numeral that was written is read as the number that it was made from, up to the limit.
pub proof fn lemma_numeral_reads_back(n: nat, limit: int)
    ensures
        n <= limit ==> parsed_unsigned(numeral(n), limit) == Some(n as int),
        n > limit ==> parsed_unsigned(numeral(n), limit) is None,
{
    lemma_numeral(n);
    let s = numeral(n);
    assert(is_digit(s[0]));
    lemma_digits_reach(s, 0, s.len() as int);
    assert(s.skip(0) =~= s);
}

/// Only digits make a number, with a plus sign before them or not.
pub proof fn lemma_only_digits_are_numbers(s: Seq<char>, limit: int)
    ensures
        s.len() == 0 ==> parsed_unsigned(s, limit) is None,
        (exists|i: int| 1 <= i < s.len() && !is_digit(#[trigger] s[i])) ==> parsed_unsigned(
            s,
            limit,
        ) is None,
        s.len() > 0 && !is_digit(s[0]) && s[0] != '+' ==> parsed_unsigned(s, limit) is None,
{
    let start: int = if s.len() > 0 && s[0] == '+' {
        1
    } else {
        0
    };
    lemma_digits_run(s, start);
}

/// A place found behind a prefix is the one found without it.
proof fn lemma_find_behind(before: Seq<char>, s: Seq<char>, c: char, i: int)
    requires
        0 <= i <= s.len(),
    ensures
        find_char(before + s, c, before.len() + i) == before.len() + find_char(s, c, i),
        i <= find_char(s, c, i) <= s.len(),
        find_char(s, c, i) < s.len() ==> s[find_char(s, c, i)] == c,
        forall|k: int| i <= k < find_char(s, c, i) ==> #[trigger] s[k] != c,
    decreases s.len() - i,
{
    if i < s.len() {
        assert((before + s)[before.len() + i] == s[i]);
        if s[i] != c {
            lemma_find_behind(before, s, c, i + 1);
        }
    }
}

/// The pieces behind a prefix are those without it.
proof fn lemma_split_behind(before: Seq<char>, s: Seq<char>, c: char, i: int)
    requires
        0 <= i <= s.len(),
    ensures
        split_from(before + s, c, before.len() + i) == split_from(s, c, i),
    decreases s.len() - i,
{
    lemma_find_behind(before, s, c, i);
    let j = find_char(s, c, i);
    if j < s.len() {
        lemma_split_behind(before, s, c, j + 1);
        assert((before + s).subrange(before.len() + i, before.len() + j) =~= s.subrange(i, j));
    } else {
        assert((before + s).skip(before.len() + i) =~= s.skip(i));
    }
}

/// A piece in front of joined pieces.
proof fn lemma_joined_front(first: Seq<char>, rest: Seq<Seq<char>>, separator: Seq<char>)
    requires
        rest.len() > 0,
    ensures
        joined(seq![first] + rest, separator) == first + separator + joined(rest, separator),
    decreases rest.len(),
{
    let all = seq![first] + rest;
    assert(all.last() == rest.last());
    assert(all.drop_last() =~= seq![first] + rest.drop_last());
    if rest.len() > 1 {
        lemma_joined_front(first, rest.drop_last(), separator);
        assert(joined(rest, separator) == joined(rest.drop_last(), separator) + separator
            + rest.last());
    } else {
        assert(seq![first] + rest.drop_last() =~= seq![first]);
        assert(joined(seq![first], separator) == first);
    }
    assert(joined(all, separator) == joined(all.drop_last(), separator) + separator + all.last());
    assert(joined(all, separator) =~= first + separator + joined(rest, separator));
}

/// No piece of a split text holds the character it is split at, there is at least one, and the
/// pieces joined with that character make up the text.
pub proof fn lemma_pieces_make_up_the_text(s: Seq<char>, c: char)
    ensures
        split(s, c).len() >= 1,
        forall|i: int| 0 <= i < split(s, c).len() ==> !(#[trigger] split(s, c)[i]).contains(c),
        joined(split(s, c), seq![c]) == s,
{
    lemma_pieces_from(s, c, 0);
    assert(s.skip(0) =~= s);
}

proof fn lemma_pieces_from(s: Seq<char>, c: char, i: int)
    requires
        0 <= i <= s.len(),
    ensures
        split_from(s, c, i).len() >= 1,
        forall|k: int|
            0 <= k < split_from(s, c, i).len() ==> !(#[trigger] split_from(s, c, i)[k]).contains(c),
        joined(split_from(s, c, i), seq![c]) == s.skip(i),
    decreases s.len() - i,
{
    lemma_find_behind(Seq::empty(), s, c, i);
    let j = find_char(s, c, i);
    if j < s.len() {
        let piece = s.subrange(i, j);
        assert forall|k: int| 0 <= k < piece.len() implies piece[k] != c by {
            assert(piece[k] == s[i + k]);
        }
        lemma_pieces_from(s, c, j + 1);
        lemma_joined_front(piece, split_from(s, c, j + 1), seq![c]);
        assert(piece + seq![c] + s.skip(j + 1) =~= s.skip(i));
    } else {
        assert forall|k: int| 0 <= k < s.skip(i).len() implies s.skip(i)[k] != c by {
            assert(s.skip(i)[k] == s[i + k]);
        }
    }
}

/// Pieces joined with a character that none of them holds are those that a split gives back.
pub proof fn lemma_joined_pieces_are_split(parts: Seq<Seq<char>>, c: char)
    requires
        parts.len() >= 1,
        forall|i: int| 0 <= i < parts.len() ==> !(#[trigger] parts[i]).contains(c),
    ensures
        split(joined(parts, seq![c]), c) == parts,
    decreases parts.len(),
{
    let first = parts[0];
    assert forall|k: int| 0 <= k < first.len() implies #[trigger] first[k] != c by {
        assert(first.contains(first[k]));
    }
    if parts.len() == 1 {
        lemma_split_one(first, c);
        assert(parts =~= seq![first]);
    } else {
        let rest = parts.skip(1);
        assert forall|i: int| 0 <= i < rest.len() implies !(#[trigger] rest[i]).contains(c) by {
            assert(rest[i] == parts[i + 1]);
        }
        lemma_joined_pieces_are_split(rest, c);
        assert(parts =~= seq![first] + rest);
        lemma_joined_front(first, rest, seq![c]);
        let tail = joined(rest, seq![c]);
        let before = first + seq![c];
        let s = before + tail;
        lemma_found(s, c, 0, first.len() as int);
        lemma_split_behind(before, tail, c, 0);
        assert(s.subrange(0, first.len() as int) =~= first);
        assert(split(s, c) =~= seq![first] + split(tail, c));
    }
}

/// Two texts are equal but for case exactly where they are as long and differ, character by
/// character, at most as an ASCII capital and its small letter do.
pub proof fn lemma_only_case_is_ignored(a: Seq<char>, b: Seq<char>)
    ensures
        equal_ignoring_case(a, b) <==> a.len() == b.len() && forall|i: int|
            0 <= i < a.len() ==> #[trigger] a[i] == b[i] || ('A' <= a[i] <= 'Z' && b[i] as int
                == a[i] as int + 32) || ('A' <= b[i] <= 'Z' && a[i] as int == b[i] as int + 32),
{
    if equal_ignoring_case(a, b) {
        assert forall|i: int| 0 <= i < a.len() implies #[trigger] a[i] == b[i] || ('A' <= a[i]
            <= 'Z' && b[i] as int == a[i] as int + 32) || ('A' <= b[i] <= 'Z' && a[i] as int
            == b[i] as int + 32) by {
            assert(ascii_lower(a[i]) == ascii_lower(b[i]));
        }
    } else if a.len() == b.len() {
        let i = choose|i: int|
            0 <= i < a.len() && ascii_lower(#[trigger] a[i]) != ascii_lower(b[i]);
        assert(a[i] != b[i]);
    }
}

/// A replaced character gives way everywhere, and no other does.
pub proof fn lemma_replaced_everywhere(s: Seq<char>, from: char, to: char, i: int)
    requires
        0 <= i < s.len(),
    ensures
        replaced(s, from, to).len() == s.len(),
        s[i] == from ==> replaced(s, from, to)[i] == to,
        s[i] != from ==> replaced(s, from, to)[i] == s[i],
{
}

/// A signed numeral starts with the sign of its number, plus where it has none, and goes on with
/// the numeral of its magnitude.
pub proof fn lemma_signed_numeral(n: nat)
    ensures
        explicit_numeral(n as int) == seq!['+'] + numeral(n),
        n > 0 ==> explicit_numeral(-(n as int)) == seq!['-'] + numeral(n),
{
}

/// A text starts with a prefix, and ends with a suffix, exactly where something makes up the rest.
pub proof fn lemma_prefix_and_suffix(s: Seq<char>, part: Seq<char>)
    ensures
        starts_with(part + s, part),
        ends_with(s + part, part),
        starts_with(s, part) ==> s == part + s.skip(part.len() as int),
        ends_with(s, part) ==> s == s.take(s.len() - part.len()) + part,
{
    assert((part + s).take(part.len() as int) =~= part);
    assert((s + part).skip((s + part).len() - part.len()) =~= part);
    if starts_with(s, part) {
        assert(s =~= s.take(part.len() as int) + s.skip(part.len() as int));
    }
    if ends_with(s, part) {
        let k = s.len() - part.len();
        assert(s =~= s.take(k) + s.skip(k));
    }
}

} // verus!
