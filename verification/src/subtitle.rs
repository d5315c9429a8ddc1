//! Subtitles: SubRip files, embedded text streams, and the cue shown at a given time.

use vstd::arithmetic::power::pow;
use vstd::prelude::*;
use vstd::utf8::{decode_utf8, valid_utf8};

use crate::decimal::{decimal_text, parse_double, parsed_double};
use crate::order::{lemma_sorted, lemma_sorting_keeps_order, place, placed, sorted};
use crate::text::{
    all_digits, append, chars_between, chars_of, digit_char, ends_with, find_char, has_prefix,
    has_suffix, is_digit, is_line, is_space, join, joined, lemma_found, lemma_joined_lines,
    lemma_lines_read_back, lemma_numeral, lemma_numeral_reads_back, lemma_only_digits_are_numbers,
    lemma_trimmed, lemma_trimmed_part, lemma_two_digits, lines, lines_text, numeral, numeral_value,
    parse_unsigned, parsed_unsigned, position_of, replace_char, replaced, rows, same_text,
    split_lines, stands_at, starts_with, text_of, texts, trim, trim_bounds, trim_end, trim_start,
    trimmed, two_digits,
};
use crate::time::{
    add_clock, clock_seconds, clock_us, decimal_us, lemma_clock_numbers_exact, microseconds,
    to_microseconds,
};

verus! {

/// A cue: what is shown, and from when to when.
pub struct Cue {
    pub start_us: int,
    pub end_us: int,
    pub text: Seq<char>,
}

/// A single subtitle cue.
#[derive(Debug, Clone)]
pub struct SrtEntry {
    pub start_us: i64,
    pub end_us: i64,
    pub text: String,
}

impl View for SrtEntry {
    type V = Cue;

    open spec fn view(&self) -> Cue {
        Cue { start_us: self.start_us as int, end_us: self.end_us as int, text: self.text@ }
    }
}

/// The cues of a list of entries.
pub open spec fn cues(v: Seq<SrtEntry>) -> Seq<Cue> {
    v.map_values(|e: SrtEntry| e@)
}

/// Whether cues follow one another by their starts.
pub open spec fn in_order(s: Seq<Cue>) -> bool {
    forall|i: int, j: int| 0 <= i <= j < s.len() ==> s[i].start_us <= s[j].start_us
}

/// Whether the cue before place `i` has started and the one at `i` has not.
pub open spec fn is_turn(s: Seq<Cue>, time_us: int, i: int) -> bool {
    &&& 0 <= i <= s.len()
    &&& i > 0 ==> s[i - 1].start_us <= time_us
    &&& i < s.len() ==> s[i].start_us > time_us
}

/// The text of the cue before place `i`, while it lasts.
pub open spec fn shown_before(s: Seq<Cue>, time_us: int, i: int) -> Option<Seq<char>> {
    if i > 0 && time_us <= s[i - 1].end_us {
        Some(s[i - 1].text)
    } else {
        None
    }
}

/// The place after the last cue that has started.
pub open spec fn started(s: Seq<Cue>, time_us: int) -> int
    decreases s.len(),
{
    if s.len() == 0 || s.last().start_us <= time_us {
        s.len() as int
    } else {
        started(s.drop_last(), time_us)
    }
}

/// The text of the last cue that has started, while it lasts.
pub open spec fn shown_at(s: Seq<Cue>, time_us: int) -> Option<Seq<char>> {
    shown_before(s, time_us, started(s, time_us))
}

/// The text that an optional string slice holds.
pub open spec fn optional_text(t: Option<&str>) -> Option<Seq<char>> {
    match t {
        Some(s) => Some(s@),
        None => None,
    }
}

/// Among cues in order, the place after the last started cue is between started and not started.
proof fn lemma_started_is_turn(s: Seq<Cue>, time_us: int)
    requires
        in_order(s),
    ensures
        is_turn(s, time_us, started(s, time_us)),
    decreases s.len(),
{
    if s.len() > 0 && s.last().start_us > time_us {
        let rest = s.drop_last();
        assert(forall|k: int| 0 <= k < rest.len() ==> rest[k] == s[k]);
        lemma_started_is_turn(rest, time_us);
    }
}

/// A subtitle track, embedded or from a file.
#[derive(Debug, Clone)]
pub struct SubtitleTrack {
    pub label: String,
    pub entries: Vec<SrtEntry>,
}

impl SubtitleTrack {
    /// The subtitle text at a given time in microseconds: that of the last entry that has started,
    /// while it lasts.
    pub fn text_at(&self, time_us: i64) -> (r: Option<&str>)
        ensures
            optional_text(r) == shown_at(cues(self.entries@), time_us as int),
    {
        let ghost all = cues(self.entries@);
        let mut i: usize = self.entries.len();
        assert(all.take(i as int) =~= all);
        while i > 0
            invariant
                i <= self.entries.len(),
                all == cues(self.entries@),
                started(all, time_us as int) == started(all.take(i as int), time_us as int),
            decreases i,
        {
            let e = &self.entries[i - 1];
            assert(all.take(i as int).last() == e@);
            if e.start_us <= time_us {
                assert(started(all, time_us as int) == i);
                if time_us <= e.end_us {
                    return Some(e.text.as_str());
                }
                return None;
            }
            assert(all.take(i as int).drop_last() =~= all.take(i - 1));
            i = i - 1;
        }
        None
    }
}

/// Whether a line holds nothing but white space.
pub open spec fn is_blank(line: Seq<char>) -> bool {
    trim(line).len() == 0
}

/// Whether a line may stand before a timing line: a blank one, or a sequence number.
pub open spec fn is_preamble(line: Seq<char>) -> bool {
    is_blank(line) || parsed_unsigned(trim(line), u32::MAX as int) is Some
}

/// The first place from `i` on where `word` stands, none where it does not.
pub open spec fn find_word(s: Seq<char>, word: Seq<char>, i: int) -> Option<int>
    decreases s.len() + 1 - i,
{
    if i < 0 || i + word.len() > s.len() {
        None
    } else if s.subrange(i, i + word.len()) == word {
        Some(i)
    } else {
        find_word(s, word, i + 1)
    }
}

/// The time that a text of the form `HH:MM:SS,mmm` denotes, in microseconds.
pub open spec fn parsed_srt_time(text: Seq<char>) -> Option<int> {
    let s = replaced(text, ',', '.');
    let i = find_char(s, ':', 0);
    let j = find_char(s, ':', i + 1);
    if i >= s.len() || j >= s.len() {
        None
    } else {
        match (
            parsed_double(s.take(i)),
            parsed_double(s.subrange(i + 1, j)),
            parsed_double(s.skip(j + 1)),
        ) {
            (Some(h), Some(m), Some(x)) => Some(microseconds(clock_seconds(h, m, x))),
            _ => None,
        }
    }
}

/// The start and the end that a timing line gives: two times around the first arrow.
pub open spec fn parsed_timing(line: Seq<char>) -> Option<(int, int)> {
    match find_word(line, "-->"@, 0) {
        None => None,
        Some(i) => {
            match (parsed_srt_time(trim(line.take(i))), parsed_srt_time(trim(line.skip(i + 3)))) {
                (Some(start), Some(end)) => Some((start, end)),
                _ => None,
            }
        },
    }
}

/// The first line from `i` on that is neither blank nor a sequence number.
pub open spec fn preamble_end(s: Seq<Seq<char>>, i: int) -> int
    decreases s.len() - i,
{
    if 0 <= i < s.len() && is_preamble(s[i]) {
        preamble_end(s, i + 1)
    } else {
        i
    }
}

/// The first blank line from `i` on.
pub open spec fn text_end(s: Seq<Seq<char>>, i: int) -> int
    decreases s.len() - i,
{
    if 0 <= i < s.len() && !is_blank(s[i]) {
        text_end(s, i + 1)
    } else {
        i
    }
}

/// The cues of the lines from `i` on. Each is a timing line and the lines after it up to a blank
/// one; what stands between cues and is no timing line is passed over.
#[verifier::opaque]
pub open spec fn cues_from(s: Seq<Seq<char>>, i: int) -> Seq<Cue>
    decreases s.len() + 1 - i,
{
    let k = preamble_end(s, i);
    if !(0 <= i <= k < s.len()) {
        Seq::empty()
    } else {
        match parsed_timing(s[k]) {
            None => cues_from(s, k + 1),
            Some((start_us, end_us)) => {
                let t = text_end(s, k + 1);
                if !(k < t <= s.len()) {
                    Seq::empty()
                } else if t == k + 1 {
                    cues_from(s, t + 1)
                } else {
                    seq![Cue { start_us, end_us, text: joined(s.subrange(k + 1, t), "\n"@) }]
                        + cues_from(s, t + 1)
                }
            },
        }
    }
}

/// Whether one cue starts no later than another.
pub open spec fn starts_first() -> spec_fn(Cue, Cue) -> bool {
    |a: Cue, b: Cue| a.start_us <= b.start_us
}

/// The cues of a SubRip text, in the order of their starts.
pub open spec fn parsed_srt(content: Seq<char>) -> Seq<Cue> {
    sorted(cues_from(lines(content), 0), starts_first())
}

/// The first place where `word` stands.
fn position_of_word(v: &Vec<char>, word: &Vec<char>) -> (r: Option<usize>)
    requires
        word.len() > 0,
    ensures
        match r {
            Some(i) => find_word(v@, word@, 0) == Some(i as int) && i + word.len() <= v.len(),
            None => find_word(v@, word@, 0) is None,
        },
{
    let mut i: usize = 0;
    while i < v.len()
        invariant
            i <= v.len(),
            word.len() > 0,
            find_word(v@, word@, 0) == find_word(v@, word@, i as int),
        decreases v.len() - i,
    {
        if stands_at(v, word, i) {
            return Some(i);
        }
        if v.len() - i < word.len() {
            return None;
        }
        i = i + 1;
    }
    None
}

/// Reads a time of the form `HH:MM:SS,mmm`.
fn parse_srt_time(text: &Vec<char>) -> (r: Option<i64>)
    ensures
        match r {
            Some(us) => parsed_srt_time(text@) == Some(us as int),
            None => parsed_srt_time(text@) is None,
        },
{
    let s = replace_char(text, ',', '.');
    let i: usize = position_of(&s, ':', 0);
    if i >= s.len() {
        return None;
    }
    let j: usize = position_of(&s, ':', i + 1);
    if j >= s.len() {
        return None;
    }
    let hours = chars_between(&s, 0, i);
    let minutes = chars_between(&s, i + 1, j);
    let seconds = chars_between(&s, j + 1, s.len());
    assert(hours@ =~= s@.take(i as int));
    assert(seconds@ =~= s@.skip(j + 1));
    match (parse_double(&hours), parse_double(&minutes), parse_double(&seconds)) {
        (Some(h), Some(m), Some(x)) => Some(to_microseconds(add_clock(h, m, x))),
        _ => None,
    }
}

/// Reads a timing line.
#[verifier::rlimit(50)]
fn parse_timing_line(line: &Vec<char>) -> (r: Option<(i64, i64)>)
    ensures
        match r {
            Some((start, end)) => parsed_timing(line@) == Some((start as int, end as int)),
            None => parsed_timing(line@) is None,
        },
{
    let arrow = chars_of("-->");
    proof {
        reveal_strlit("-->");
    }
    match position_of_word(line, &arrow) {
        None => None,
        Some(i) => {
            let left = chars_between(line, 0, i);
            let right = chars_between(line, i + 3, line.len());
            assert(left@ =~= line@.take(i as int));
            assert(right@ =~= line@.skip(i + 3));
            match (parse_srt_time(&trimmed(&left)), parse_srt_time(&trimmed(&right))) {
                (Some(start), Some(end)) => Some((start, end)),
                _ => None,
            }
        },
    }
}

fn blank(line: &Vec<char>) -> (r: bool)
    ensures
        r == is_blank(line@),
{
    let (from, to) = trim_bounds(line);
    from == to
}

fn preamble(line: &Vec<char>) -> (r: bool)
    ensures
        r == is_preamble(line@),
{
    let inner = trimmed(line);
    inner.len() == 0 || parse_unsigned(&inner, u32::MAX as u64).is_some()
}

/// The first line from `i` on that is neither blank nor a sequence number.
fn skip_preamble(all: &Vec<Vec<char>>, i: usize) -> (k: usize)
    requires
        i <= all.len(),
    ensures
        i <= k <= all.len(),
        k == preamble_end(rows(all@), i as int),
{
    let mut k: usize = i;
    while k < all.len() && preamble(&all[k])
        invariant
            i <= k <= all.len(),
            preamble_end(rows(all@), i as int) == preamble_end(rows(all@), k as int),
        decreases all.len() - k,
    {
        assert(rows(all@)[k as int] == all@[k as int]@);
        k = k + 1;
    }
    assert(k < all.len() ==> rows(all@)[k as int] == all@[k as int]@);
    k
}

/// The lines from `from` up to a blank one, joined, and where that is.
#[verifier::rlimit(50)]
fn collect_text(all: &Vec<Vec<char>>, from: usize) -> (r: (usize, String))
    requires
        from <= all.len(),
    ensures
        from <= r.0 <= all.len(),
        r.0 == text_end(rows(all@), from as int),
        r.1@ == joined(rows(all@).subrange(from as int, r.0 as int), "\n"@),
{
    let ghost s = rows(all@);
    let mut text_lines: Vec<String> = Vec::new();
    let mut t: usize = from;
    assert(texts(text_lines@) =~= s.subrange(from as int, from as int));
    while t < all.len() && !blank(&all[t])
        invariant
            from <= t <= all.len(),
            s == rows(all@),
            text_end(s, from as int) == text_end(s, t as int),
            texts(text_lines@) == s.subrange(from as int, t as int),
        decreases all.len() - t,
    {
        let line = text_of(&all[t], 0, all[t].len());
        assert(line@ =~= all@[t as int]@);
        let ghost before = text_lines@;
        text_lines.push(line);
        assert(texts(text_lines@) =~= texts(before).push(line@));
        assert(s.subrange(from as int, t + 1) =~= s.subrange(from as int, t as int).push(
            s[t as int],
        ));
        t = t + 1;
    }
    assert(t < all.len() ==> s[t as int] == all@[t as int]@);
    (t, join(&text_lines, "\n"))
}

/// Reads the lines from `i` on up to the end of the first cue among them.
#[verifier::rlimit(50)]
fn next_cue(all: &Vec<Vec<char>>, i: usize) -> (r: (usize, Option<SrtEntry>))
    requires
        i < all.len(),
    ensures
        i < r.0 <= all.len(),
        match r.1 {
            Some(e) => cues_from(rows(all@), i as int) == seq![e@] + cues_from(
                rows(all@),
                r.0 as int,
            ),
            None => cues_from(rows(all@), i as int) == cues_from(rows(all@), r.0 as int),
        },
{
    let ghost s = rows(all@);
    proof {
        reveal(cues_from);
    }
    let k: usize = skip_preamble(all, i);
    if k >= all.len() {
        return (k, None);
    }
    assert(s[k as int] == all@[k as int]@);
    match parse_timing_line(&all[k]) {
        None => (k + 1, None),
        Some((start_us, end_us)) => {
            let (t, text) = collect_text(all, k + 1);
            let next: usize = if t == all.len() {
                t
            } else {
                t + 1
            };
            assert(cues_from(s, s.len() as int) == cues_from(s, (s.len() + 1) as int));
            if t > k + 1 {
                (next, Some(SrtEntry { start_us, end_us, text }))
            } else {
                (next, None)
            }
        },
    }
}

/// Places an entry behind the last that starts no later.
fn insert_in_order(entries: &mut Vec<SrtEntry>, entry: SrtEntry)
    ensures
        cues(final(entries)@) == placed(cues(old(entries)@), starts_first(), entry@),
{
    let ghost all = cues(entries@);
    let mut i: usize = entries.len();
    assert(all.take(i as int) =~= all);
    while i > 0 && entries[i - 1].start_us > entry.start_us
        invariant
            i <= entries.len(),
            all == cues(entries@),
            place(all, starts_first(), entry@) == place(all.take(i as int), starts_first(), entry@),
        decreases i,
    {
        assert(all.take(i as int).drop_last() =~= all.take(i - 1));
        assert(all.take(i as int).last() == entries@[i - 1]@);
        i = i - 1;
    }
    proof {
        if i > 0 {
            assert(all.take(i as int).last() == entries@[i - 1]@);
        }
    }
    entries.insert(i, entry);
    assert(cues(entries@) =~= all.insert(i as int, entry@));
}

/// Parses the text of a SubRip file. The entries come in the order of their starts.
pub fn parse_srt_content(content: &str) -> (r: Vec<SrtEntry>)
    ensures
        cues(r@) == parsed_srt(content@),
{
    let all = split_lines(&chars_of(content));
    let ghost s = lines(content@);
    let mut entries: Vec<SrtEntry> = Vec::new();
    let ghost mut found: Seq<Cue> = Seq::empty();
    let mut i: usize = 0;
    assert(found + cues_from(s, 0) =~= cues_from(s, 0));
    assert(cues(entries@) =~= sorted(found, starts_first()));
    while i < all.len()
        invariant
            i <= all.len(),
            s == rows(all@),
            found + cues_from(s, i as int) == cues_from(s, 0),
            cues(entries@) == sorted(found, starts_first()),
        decreases all.len() - i,
    {
        let (next, cue) = next_cue(&all, i);
        match cue {
            Some(entry) => {
                let ghost before = found;
                proof {
                    found = found.push(entry@);
                    let rest = cues_from(s, next as int);
                    assert(before + (seq![entry@] + rest) =~= found + rest);
                    assert(found.drop_last() =~= before);
                }
                insert_in_order(&mut entries, entry);
            },
            None => {},
        }
        i = next;
    }
    assert(cues_from(s, i as int) =~= Seq::empty()) by {
        reveal(cues_from);
    }
    assert(found + Seq::<Cue>::empty() =~= found);
    entries
}

/// Cues in the order of their starts.
proof fn lemma_in_order(s: Seq<Cue>)
    ensures
        in_order(sorted(s, starts_first())),
        sorted(s, starts_first()).to_multiset() == s.to_multiset(),
{
    lemma_sorted(s, starts_first());
    let all = sorted(s, starts_first());
    assert forall|i: int, j: int| 0 <= i <= j < all.len() implies all[i].start_us
        <= all[j].start_us by {
        if i < j {
            assert(starts_first()(all[i], all[j]));
        }
    }
}

/// A number below a thousand in three digits.
pub open spec fn three_digits(n: nat) -> Seq<char> {
    seq![
        digit_char((n / 100) as int),
        digit_char((n / 10 % 10) as int),
        digit_char((n % 10) as int),
    ]
}

/// A time as a SubRip file writes it: `HH:MM:SS,mmm`.
pub open spec fn srt_time_text(h: nat, m: nat, s: nat, ms: nat) -> Seq<char> {
    two_digits(h) + seq![':'] + two_digits(m) + seq![':'] + two_digits(s) + seq![',']
        + three_digits(ms)
}

/// Whether a text holds something, and only digits, colons and commas.
spec fn time_characters(s: Seq<char>) -> bool {
    &&& s.len() > 0
    &&& forall|i: int|
        0 <= i < s.len() ==> is_digit(#[trigger] s[i]) || s[i] == ':' || s[i] == ','
}

proof fn lemma_three_digits(n: nat)
    requires
        n <= 999,
    ensures
        all_digits(three_digits(n)),
        numeral_value(three_digits(n)) == n,
{
    let s = three_digits(n);
    let first = seq![s[0]];
    let two = seq![s[0], s[1]];
    assert(s.drop_last() =~= two);
    assert(two.drop_last() =~= first);
    assert(first.drop_last() =~= Seq::empty());
    assert(numeral_value(Seq::<char>::empty()) == 0);
    assert(numeral_value(first) == n / 100);
    assert(numeral_value(two) == n / 100 * 10 + n / 10 % 10);
}

/// A time of digits with a comma before the last of them is read exactly.
#[verifier::spinoff_prover]
#[verifier::rlimit(50)]
proof fn lemma_srt_digits_exact(h: Seq<char>, m: Seq<char>, s: Seq<char>, f: Seq<char>)
    requires
        all_digits(h),
        all_digits(m),
        all_digits(s),
        all_digits(f),
        h.len() > 0,
        m.len() > 0,
        s.len() > 0,
        0 < f.len() <= 6,
        numeral_value(h) * 3600 + numeral_value(m) * 60 + numeral_value(s) < 0x4000_0000,
    ensures
        parsed_srt_time(h + seq![':'] + m + seq![':'] + s + seq![','] + f) == Some(
            clock_us(h, m, s, f),
        ),
{
    let text = h + seq![':'] + m + seq![':'] + s + seq![','] + f;
    let t = replaced(text, ',', '.');
    let rest = decimal_text(s, f);
    let i = h.len() as int;
    let j = i + 1 + m.len();
    let k = j + 1 + s.len();
    assert forall|x: int| 0 <= x < i implies #[trigger] t[x] == h[x] && t[x] != ':' by {
        assert(text[x] == h[x]);
        assert(is_digit(h[x]));
    }
    assert forall|x: int| i + 1 <= x < j implies #[trigger] t[x] == m[x - i - 1] && t[x]
        != ':' by {
        assert(text[x] == m[x - i - 1]);
        assert(is_digit(m[x - i - 1]));
    }
    assert forall|x: int| j + 1 <= x < t.len() implies #[trigger] t[x] == rest[x - j - 1] by {
        if x < k {
            assert(text[x] == s[x - j - 1]);
            assert(is_digit(s[x - j - 1]));
        } else if x > k {
            assert(text[x] == f[x - k - 1]);
            assert(is_digit(f[x - k - 1]));
        }
    }
    assert(t[i] == ':' && t[j] == ':');
    lemma_found(t, ':', 0, i);
    lemma_found(t, ':', i + 1, j);
    assert(t.take(i) =~= h);
    assert(t.subrange(i + 1, j) =~= m);
    assert(t.skip(j + 1) =~= rest);
    lemma_clock_numbers_exact(h, m, s, f);
}

/// Seconds with three digits behind the point, in microseconds.
proof fn lemma_milliseconds(s: Seq<char>, f: Seq<char>)
    requires
        f.len() == 3,
    ensures
        decimal_us(s, f) == (numeral_value(s) * 1_000 + numeral_value(f)) * 1_000,
{
    assert(pow(10, 3) == 1_000) by {
        reveal_with_fuel(pow, 4);
    }
}

/// A time in a SubRip file is read to the millisecond that it gives.
pub proof fn lemma_srt_time_exact(h: nat, m: nat, s: nat, ms: nat)
    requires
        h * 3600 + m * 60 + s < 0x4000_0000,
        ms <= 999,
    ensures
        parsed_srt_time(srt_time_text(h, m, s, ms)) == Some(
            ((h * 3600 + m * 60 + s) * 1_000_000 + ms * 1_000) as int,
        ),
{
    lemma_two_digits(h);
    lemma_two_digits(m);
    lemma_two_digits(s);
    lemma_three_digits(ms);
    lemma_srt_digits_exact(two_digits(h), two_digits(m), two_digits(s), three_digits(ms));
    lemma_milliseconds(two_digits(s), three_digits(ms));
}

/// A time holds digits, colons and a comma.
#[verifier::rlimit(50)]
proof fn lemma_time_characters(h: nat, m: nat, s: nat, ms: nat)
    requires
        ms <= 999,
    ensures
        time_characters(srt_time_text(h, m, s, ms)),
{
    lemma_two_digits(h);
    lemma_two_digits(m);
    lemma_two_digits(s);
    lemma_three_digits(ms);
    let text = srt_time_text(h, m, s, ms);
    let i = two_digits(h).len() as int;
    let j = i + 1 + two_digits(m).len();
    let k = j + 1 + two_digits(s).len();
    assert forall|x: int| 0 <= x < text.len() implies is_digit(#[trigger] text[x]) || text[x] == ':'
        || text[x] == ',' by {
        if x < i {
            assert(text[x] == two_digits(h)[x]);
        } else if i < x < j {
            assert(text[x] == two_digits(m)[x - i - 1]);
        } else if j < x < k {
            assert(text[x] == two_digits(s)[x - j - 1]);
        } else if k < x {
            assert(text[x] == three_digits(ms)[x - k - 1]);
        }
    }
}

/// A text with a space behind it or before it is trimmed to itself.
proof fn lemma_time_trimmed(s: Seq<char>)
    requires
        time_characters(s),
    ensures
        trim(s + seq![' ']) == s,
        trim(seq![' '] + s) == s,
{
    reveal_with_fuel(trim_start, 2);
    reveal_with_fuel(trim_end, 2);
    assert(!is_space(s[0]));
    assert(!is_space(s[s.len() - 1]));
    let after = s + seq![' '];
    assert(after[0] == s[0]);
    assert(after.last() == ' ');
    assert(after.drop_last() =~= s);
    let before = seq![' '] + s;
    assert(before[0] == ' ');
    assert(before.drop_first() =~= s);
}

/// Where `word` first stands at `j`, it is found there.
proof fn lemma_word_found(s: Seq<char>, word: Seq<char>, i: int, j: int)
    requires
        0 <= i <= j,
        word.len() > 0,
        j + word.len() <= s.len(),
        s.subrange(j, j + word.len()) == word,
        forall|k: int| i <= k < j ==> #[trigger] s[k] != word[0],
    ensures
        find_word(s, word, i) == Some(j),
    decreases j - i,
{
    if i < j {
        assert(s.subrange(i, i + word.len())[0] == s[i]);
        assert(s[i] != word[0]);
        lemma_word_found(s, word, i + 1, j);
    }
}

/// A timing line is read as the two times around its arrow.
#[verifier::spinoff_prover]
#[verifier::rlimit(50)]
proof fn lemma_timing_read(a: Seq<char>, b: Seq<char>)
    requires
        time_characters(a),
        time_characters(b),
        parsed_srt_time(a) is Some,
        parsed_srt_time(b) is Some,
    ensures
        parsed_timing(a + " --> "@ + b) == Some(
            (parsed_srt_time(a).unwrap(), parsed_srt_time(b).unwrap()),
        ),
{
    let line = a + " --> "@ + b;
    reveal_strlit("-->");
    reveal_strlit(" --> ");
    let j = a.len() as int + 1;
    assert(line.subrange(j, j + 3) =~= "-->"@);
    assert forall|k: int| 0 <= k < j implies #[trigger] line[k] != "-->"@[0] by {
        if k < a.len() {
            assert(line[k] == a[k]);
        }
    }
    lemma_word_found(line, "-->"@, 0, j);
    assert(line.take(j) =~= a + seq![' ']);
    assert(line.skip(j + 3) =~= seq![' '] + b);
    lemma_time_trimmed(a);
    lemma_time_trimmed(b);
}

/// A timing line gives the two times that stand in it, each as hours, minutes, seconds and
/// milliseconds.
#[verifier::rlimit(50)]
pub proof fn lemma_srt_timing_exact(from: (nat, nat, nat, nat), to: (nat, nat, nat, nat))
    requires
        from.0 * 3600 + from.1 * 60 + from.2 < 0x4000_0000,
        from.3 <= 999,
        to.0 * 3600 + to.1 * 60 + to.2 < 0x4000_0000,
        to.3 <= 999,
    ensures
        parsed_timing(
            srt_time_text(from.0, from.1, from.2, from.3) + " --> "@ + srt_time_text(
                to.0,
                to.1,
                to.2,
                to.3,
            ),
        ) == Some(
            (
                ((from.0 * 3600 + from.1 * 60 + from.2) * 1_000_000 + from.3 * 1_000) as int,
                ((to.0 * 3600 + to.1 * 60 + to.2) * 1_000_000 + to.3 * 1_000) as int,
            ),
        ),
{
    let a = srt_time_text(from.0, from.1, from.2, from.3);
    let b = srt_time_text(to.0, to.1, to.2, to.3);
    lemma_srt_time_exact(from.0, from.1, from.2, from.3);
    lemma_srt_time_exact(to.0, to.1, to.2, to.3);
    lemma_time_characters(from.0, from.1, from.2, from.3);
    lemma_time_characters(to.0, to.1, to.2, to.3);
    lemma_timing_read(a, b);
}

/// The cues of a SubRip file are in order, and are all those that it holds.
pub proof fn lemma_file_cues_in_order(content: Seq<char>)
    ensures
        in_order(parsed_srt(content)),
        parsed_srt(content).to_multiset() == cues_from(lines(content), 0).to_multiset(),
{
    lemma_in_order(cues_from(lines(content), 0));
}

/// A text of rows that ends with one that is not empty is not empty.
proof fn lemma_joined_has_text(parts: Seq<Seq<char>>, separator: Seq<char>)
    requires
        parts.len() > 0,
        parts.last().len() > 0,
    ensures
        joined(parts, separator).len() > 0,
{
}

proof fn lemma_text_end(s: Seq<Seq<char>>, i: int, k: int)
    requires
        0 <= i <= k < text_end(s, i),
    ensures
        k < s.len(),
        !is_blank(s[k]),
    decreases s.len() - i,
{
    if 0 <= i < s.len() && !is_blank(s[i]) && i < k {
        lemma_text_end(s, i + 1, k);
    }
}

#[verifier::rlimit(50)]
proof fn lemma_cues_have_text(s: Seq<Seq<char>>, i: int, n: int)
    requires
        0 <= n < cues_from(s, i).len(),
    ensures
        cues_from(s, i)[n].text.len() > 0,
    decreases s.len() + 1 - i,
{
    reveal(cues_from);
    let k = preamble_end(s, i);
    match parsed_timing(s[k]) {
        None => {
            lemma_cues_have_text(s, k + 1, n);
        },
        Some((start_us, end_us)) => {
            let t = text_end(s, k + 1);
            if t == k + 1 {
                lemma_cues_have_text(s, t + 1, n);
            } else if n == 0 {
                lemma_text_end(s, k + 1, t - 1);
                let parts = s.subrange(k + 1, t);
                assert(parts.last() == s[t - 1]);
                assert(parts.last().len() > 0) by {
                    if parts.last().len() == 0 {
                        assert(trim_start(parts.last()) == parts.last());
                    }
                }
                lemma_joined_has_text(parts, "\n"@);
            } else {
                lemma_cues_have_text(s, t + 1, n - 1);
            }
        },
    }
}

/// Every cue of a SubRip file has a text.
pub proof fn lemma_file_cues_have_text(content: Seq<char>, n: int)
    requires
        0 <= n < parsed_srt(content).len(),
    ensures
        parsed_srt(content)[n].text.len() > 0,
{
    let all = cues_from(lines(content), 0);
    let ordered = parsed_srt(content);
    lemma_in_order(all);
    all.to_multiset_ensures();
    ordered.to_multiset_ensures();
    assert(ordered.contains(ordered[n]));
    assert(ordered.to_multiset().count(ordered[n]) > 0);
    assert(all.contains(ordered[n]));
    let k = choose|k: int| 0 <= k < all.len() && all[k] == ordered[n];
    lemma_cues_have_text(lines(content), 0, k);
}

/// Among cues in order, what is shown at a time is the text of a cue that has started and not
/// ended, and that no other has followed; nothing is shown only where that cue has ended.
#[verifier::rlimit(50)]
pub proof fn lemma_shown_is_current(s: Seq<Cue>, time_us: int)
    requires
        in_order(s),
    ensures
        match shown_at(s, time_us) {
            Some(text) => exists|i: int|
                0 <= i < s.len() && (#[trigger] s[i]).text == text && s[i].start_us <= time_us
                    <= s[i].end_us && (i + 1 < s.len() ==> s[i + 1].start_us > time_us),
            None => forall|i: int|
                0 <= i < s.len() && (#[trigger] s[i]).start_us <= time_us <= s[i].end_us ==> i + 1
                    < s.len() && s[i + 1].start_us <= time_us,
        },
{
    lemma_started_is_turn(s, time_us);
    let k = started(s, time_us);
    if shown_at(s, time_us) is Some {
        assert(s[k - 1].text == shown_at(s, time_us)->0);
    } else {
        assert forall|i: int|
            0 <= i < s.len() && (#[trigger] s[i]).start_us <= time_us <= s[i].end_us implies i + 1
            < s.len() && s[i + 1].start_us <= time_us by {
            if k <= i {
                assert(s[k].start_us <= s[i].start_us);
            } else if i + 1 < k {
                assert(s[i + 1].start_us <= s[k - 1].start_us);
            }
        }
    }
}

/// The text of a file: its bytes as UTF-8 where they are that, and as Latin-1 where not.
pub open spec fn file_text(bytes: Seq<u8>) -> Seq<char> {
    if valid_utf8(bytes) {
        decode_utf8(bytes)
    } else {
        bytes.map_values(|b: u8| b as char)
    }
}

/// `std::str::from_utf8` of the standard library: the text that bytes encode as UTF-8, none where
/// they are not UTF-8.
#[verifier::external_body]
fn utf8_text(bytes: &[u8]) -> (r: Option<&str>)
    ensures
        match r {
            Some(s) => valid_utf8(bytes@) && s@ == decode_utf8(bytes@),
            None => !valid_utf8(bytes@),
        },
{
    match std::str::from_utf8(bytes) {
        Ok(s) => Some(s),
        Err(_) => None,
    }
}

/// Parses the bytes of a SubRip file. Tries UTF-8 first, falls back to Latin-1.
#[verifier::rlimit(50)]
pub fn parse_srt(bytes: &[u8]) -> (r: Vec<SrtEntry>)
    ensures
        cues(r@) == parsed_srt(file_text(bytes@)),
{
    match utf8_text(bytes) {
        Some(s) => parse_srt_content(s),
        None => {
            let mut text = String::new();
            let mut i: usize = 0;
            while i < bytes.len()
                invariant
                    i <= bytes.len(),
                    text@ == bytes@.take(i as int).map_values(|b: u8| b as char),
                decreases bytes.len() - i,
            {
                text.push(bytes[i] as char);
                i = i + 1;
                assert(bytes@.take(i as int) =~= bytes@.take(i - 1).push(bytes@[i - 1]));
                assert(text@ =~= bytes@.take(i as int).map_values(|b: u8| b as char));
            }
            assert(bytes@.take(i as int) =~= bytes@);
            parse_srt_content(text.as_str())
        },
    }
}

/// Whether a file name is that of a subtitle file beside a video of this stem with something
/// between stem and extension: of the form `stem.*.srt`.
pub open spec fn is_srt_variant(stem: Seq<char>, name: Seq<char>) -> bool {
    &&& starts_with(name, stem + "."@)
    &&& ends_with(name, ".srt"@)
    &&& stem.len() + 5 <= name.len()
}

/// The names of the subtitle files beside a video of this stem: the direct one first, where there
/// is one, then the others in the order of the listing.
pub open spec fn srt_names(stem: Seq<char>, direct_exists: bool, names: Seq<Seq<char>>) -> Seq<
    Seq<char>,
> {
    let direct = if direct_exists {
        seq![stem + ".srt"@]
    } else {
        Seq::empty()
    };
    direct + names.filter(|name: Seq<char>| is_srt_variant(stem, name))
}

/// Picks the subtitle files beside a video: `stem.srt` where it exists, and of the names in its
/// directory those of the form `stem.*.srt`.
pub fn find_srt_files(stem: &str, direct_exists: bool, names: &Vec<String>) -> (r: Vec<String>)
    ensures
        texts(r@) == srt_names(stem@, direct_exists, texts(names@)),
{
    let mut direct: String = stem.to_string();
    append(&mut direct, ".srt");
    let mut opening: String = stem.to_string();
    append(&mut opening, ".");
    let prefix = chars_of(opening.as_str());
    let suffix = chars_of(".srt");
    proof {
        reveal_strlit(".");
        reveal_strlit(".srt");
    }
    let ghost all = texts(names@);
    let ghost keep = |name: Seq<char>| is_srt_variant(stem@, name);
    let mut out: Vec<String> = Vec::new();
    if direct_exists {
        out.push(direct);
    }
    let ghost first = texts(out@);
    assert(first =~= if direct_exists {
        seq![stem@ + ".srt"@]
    } else {
        Seq::empty()
    });
    let mut i: usize = 0;
    proof {
        reveal(Seq::filter);
        assert(first + all.take(0).filter(keep) =~= first);
    }
    while i < names.len()
        invariant
            i <= names.len(),
            prefix@ == stem@ + "."@,
            prefix@.len() == stem@.len() + 1,
            suffix@ == ".srt"@,
            suffix@.len() == 4,
            all == texts(names@),
            keep == (|name: Seq<char>| is_srt_variant(stem@, name)),
            texts(out@) == first + all.take(i as int).filter(keep),
        decreases names.len() - i,
    {
        let name = chars_of(names[i].as_str());
        proof {
            reveal(Seq::filter);
            assert(all.take(i + 1).drop_last() =~= all.take(i as int));
            assert(all.take(i + 1).last() == names@[i as int]@);
        }
        let ghost before = out@;
        if has_prefix(&name, &prefix) && has_suffix(&name, &suffix) && name.len() - prefix.len()
            >= suffix.len() {
            out.push(names[i].clone());
            assert(texts(out@) =~= texts(before).push(all[i as int]));
        }
        i = i + 1;
        assert(texts(out@) =~= first + all.take(i as int).filter(keep));
    }
    assert(all.take(i as int) =~= all);
    out
}

/// A decoded subtitle rectangle.
#[derive(Debug, Clone)]
pub enum SubtitleRect {
    /// Plain text.
    Text(String),
    /// A line of Advanced SubStation Alpha.
    Ass(String),
    /// A bitmap, or nothing.
    Other,
}

/// A decoded subtitle: its time stamp in microseconds, the offsets in milliseconds at which it
/// appears and disappears, and its rectangles.
#[derive(Debug, Clone)]
pub struct SubtitleEvent {
    pub pts_us: Option<i64>,
    pub start_ms: u32,
    pub end_ms: u32,
    pub rects: Vec<SubtitleRect>,
}

impl SubtitleEvent {
    /// The time stamp, zero where there is none.
    pub open spec fn base_us(self) -> int {
        match self.pts_us {
            Some(us) => us as int,
            None => 0,
        }
    }

    /// When the subtitle appears, in microseconds.
    pub open spec fn start_us(self) -> int {
        self.base_us() + self.start_ms * 1000
    }

    /// When the subtitle disappears, in microseconds.
    pub open spec fn end_us(self) -> int {
        self.base_us() + self.end_ms * 1000
    }

    /// Whether both times fit their type.
    pub open spec fn in_range(self) -> bool {
        self.start_us() <= i64::MAX && self.end_us() <= i64::MAX
    }
}

/// Where the text of a dialogue line starts: behind the eighth comma, at the beginning where there
/// are fewer. `commas` of them stand before `i`.
pub open spec fn dialogue_start(s: Seq<char>, i: int, commas: int) -> int
    decreases s.len() - i,
{
    if !(0 <= i < s.len()) {
        0
    } else if s[i] != ',' {
        dialogue_start(s, i + 1, commas)
    } else if commas == 7 {
        i + 1
    } else {
        dialogue_start(s, i + 1, commas + 1)
    }
}

/// A text from `i` on without override tags and with real line breaks.
pub open spec fn untagged(s: Seq<char>, i: int) -> Seq<char>
    decreases s.len() + 1 - i,
{
    if !(0 <= i < s.len()) {
        Seq::empty()
    } else if s[i] == '{' {
        let j = find_char(s, '}', i + 1);
        if i < j <= s.len() {
            untagged(s, j + 1)
        } else {
            Seq::empty()
        }
    } else if s[i] == '\\' && i + 1 < s.len() && (s[i + 1] == 'N' || s[i + 1] == 'n') {
        seq!['\n'] + untagged(s, i + 2)
    } else {
        seq![s[i]] + untagged(s, i + 1)
    }
}

/// The plain text of a line of Advanced SubStation Alpha.
pub open spec fn stripped_ass(s: Seq<char>) -> Seq<char> {
    trim(untagged(s.skip(dialogue_start(s, 0, 0)), 0))
}

#[verifier::rlimit(50)]
proof fn lemma_untagged_has_no_brace(s: Seq<char>, i: int)
    ensures
        forall|k: int| 0 <= k < untagged(s, i).len() ==> #[trigger] untagged(s, i)[k] != '{',
    decreases s.len() + 1 - i,
{
    let out = untagged(s, i);
    if 0 <= i < s.len() {
        if s[i] == '{' {
            let j = find_char(s, '}', i + 1);
            if i < j <= s.len() {
                lemma_untagged_has_no_brace(s, j + 1);
                assert(out == untagged(s, j + 1));
            } else {
                assert(out.len() == 0);
            }
        } else {
            let next = if s[i] == '\\' && i + 1 < s.len() && (s[i + 1] == 'N' || s[i + 1] == 'n') {
                i + 2
            } else {
                i + 1
            };
            let rest = untagged(s, next);
            lemma_untagged_has_no_brace(s, next);
            assert forall|k: int| 0 <= k < out.len() implies #[trigger] out[k] != '{' by {
                if k > 0 {
                    assert(out[k] == rest[k - 1]);
                }
            }
        }
    }
}

/// No override tag is left in a text that was stripped.
pub proof fn lemma_stripped_has_no_brace(s: Seq<char>)
    ensures
        !stripped_ass(s).contains('{'),
{
    let text = untagged(s.skip(dialogue_start(s, 0, 0)), 0);
    lemma_untagged_has_no_brace(s.skip(dialogue_start(s, 0, 0)), 0);
    lemma_trimmed_part(text);
    assert forall|k: int| 0 <= k < stripped_ass(s).len() implies #[trigger] stripped_ass(s)[k]
        != '{' by {
        assert(trim(text).contains(trim(text)[k]));
    }
}

proof fn lemma_untagged_keeps(s: Seq<char>, i: int)
    requires
        0 <= i <= s.len(),
        !s.contains('{'),
        !s.contains('\\'),
    ensures
        untagged(s, i) == s.skip(i),
    decreases s.len() - i,
{
    if i < s.len() {
        assert(s.contains(s[i]));
        lemma_untagged_keeps(s, i + 1);
        assert(seq![s[i]] + s.skip(i + 1) =~= s.skip(i));
    } else {
        assert(s.skip(i) =~= Seq::empty());
    }
}

/// A text without tags, line breaks or the fields of a dialogue line is kept, but for the white
/// space at its ends.
pub proof fn lemma_plain_text_is_kept(s: Seq<char>)
    requires
        !s.contains('{'),
        !s.contains('\\'),
        dialogue_start(s, 0, 0) == 0,
    ensures
        stripped_ass(s) == trim(s),
{
    assert(s.skip(0) =~= s);
    lemma_untagged_keeps(s, 0);
}

/// Where the text of a dialogue line starts.
fn skip_ass_prefix(v: &Vec<char>) -> (r: usize)
    ensures
        r <= v.len(),
        r == dialogue_start(v@, 0, 0),
{
    let mut commas: u32 = 0;
    let mut i: usize = 0;
    while i < v.len()
        invariant
            i <= v.len(),
            commas < 8,
            dialogue_start(v@, 0, 0) == dialogue_start(v@, i as int, commas as int),
        decreases v.len() - i,
    {
        if v[i] == ',' {
            commas = commas + 1;
            if commas == 8 {
                return i + 1;
            }
        }
        i = i + 1;
    }
    0
}

/// Strips the formatting from a line of Advanced SubStation Alpha: the fields before the text of a
/// dialogue line, override tags in braces, and escaped line breaks.
pub fn strip_ass_tags(s: &str) -> (r: String)
    ensures
        r@ == stripped_ass(s@),
{
    let all = chars_of(s);
    let start: usize = skip_ass_prefix(&all);
    let v = chars_between(&all, start, all.len());
    assert(v@ =~= s@.skip(start as int));
    let mut out: Vec<char> = Vec::new();
    let mut i: usize = 0;
    assert(out@ + untagged(v@, 0) =~= untagged(v@, 0));
    while i < v.len()
        invariant
            i <= v.len(),
            out@ + untagged(v@, i as int) == untagged(v@, 0),
        decreases v.len() - i,
    {
        let c: char = v[i];
        if c == '{' {
            let j: usize = position_of(&v, '}', i + 1);
            if j == v.len() {
                assert(untagged(v@, j + 1) =~= Seq::empty());
                i = j;
            } else {
                i = j + 1;
            }
        } else if c == '\\' && v.len() - i > 1 && (v[i + 1] == 'N' || v[i + 1] == 'n') {
            assert(out@ + (seq!['\n'] + untagged(v@, i + 2)) =~= out@.push('\n') + untagged(
                v@,
                i + 2,
            ));
            out.push('\n');
            i = i + 2;
        } else {
            assert(out@ + (seq![c] + untagged(v@, i + 1)) =~= out@.push(c) + untagged(v@, i + 1));
            out.push(c);
            i = i + 1;
        }
    }
    assert(out@ + Seq::<char>::empty() =~= out@);
    let (from, to) = trim_bounds(&out);
    text_of(&out, from, to)
}

/// The plain text of a rectangle.
pub open spec fn rect_text(r: SubtitleRect) -> Seq<char> {
    match r {
        SubtitleRect::Text(t) => trim(t@),
        SubtitleRect::Ass(t) => stripped_ass(t@),
        SubtitleRect::Other => Seq::empty(),
    }
}

/// The texts of rectangles, without the empty ones.
pub open spec fn rect_texts(s: Seq<SubtitleRect>) -> Seq<Seq<char>> {
    s.map_values(|r: SubtitleRect| rect_text(r)).filter(|t: Seq<char>| t.len() > 0)
}

/// The plain text of a decoded subtitle, one line for each rectangle that has any.
pub open spec fn event_text(e: SubtitleEvent) -> Seq<char> {
    joined(rect_texts(e.rects@), "\n"@)
}

/// Extracts the plain text of a decoded subtitle.
pub fn extract_subtitle_text(event: &SubtitleEvent) -> (r: String)
    ensures
        r@ == event_text(*event),
{
    let ghost all = event.rects@.map_values(|r: SubtitleRect| rect_text(r));
    let ghost keep = |t: Seq<char>| t.len() > 0;
    let mut parts: Vec<String> = Vec::new();
    let mut i: usize = 0;
    proof {
        reveal(Seq::filter);
        assert(all.take(0).filter(keep) =~= Seq::empty());
        assert(texts(parts@) =~= Seq::empty());
    }
    while i < event.rects.len()
        invariant
            i <= event.rects.len(),
            all == event.rects@.map_values(|r: SubtitleRect| rect_text(r)),
            keep == (|t: Seq<char>| t.len() > 0),
            texts(parts@) == all.take(i as int).filter(keep),
        decreases event.rects.len() - i,
    {
        let text: String = match &event.rects[i] {
            SubtitleRect::Text(t) => {
                let v = chars_of(t.as_str());
                let (from, to) = trim_bounds(&v);
                text_of(&v, from, to)
            },
            SubtitleRect::Ass(t) => strip_ass_tags(t.as_str()),
            SubtitleRect::Other => String::new(),
        };
        assert(text@ == all[i as int]);
        proof {
            reveal(Seq::filter);
            assert(all.take(i + 1).drop_last() =~= all.take(i as int));
            assert(all.take(i + 1).last() == text@);
        }
        let ghost before = parts@;
        if chars_of(text.as_str()).len() > 0 {
            parts.push(text);
            assert(texts(parts@) =~= texts(before).push(text@));
        }
        i = i + 1;
    }
    assert(all.take(i as int) =~= all);
    join(&parts, "\n")
}

/// Whether a codec's subtitles are pictures, which hold no text.
pub open spec fn is_bitmap_codec(name: Seq<char>) -> bool {
    name == "dvd_subtitle"@ || name == "hdmv_pgs_subtitle"@ || name == "dvb_subtitle"@ || name
        == "xsub"@
}

/// Whether a codec's subtitles are pictures, which hold no text.
pub fn bitmap_codec(name: &str) -> (r: bool)
    ensures
        r == is_bitmap_codec(name@),
{
    same_text(name, "dvd_subtitle") || same_text(name, "hdmv_pgs_subtitle") || same_text(
        name,
        "dvb_subtitle",
    ) || same_text(name, "xsub")
}

/// The cue of a decoded subtitle.
pub open spec fn event_cue(e: SubtitleEvent) -> Cue {
    Cue { start_us: e.start_us(), end_us: e.end_us(), text: event_text(e) }
}

/// Whether a cue shows any text for any time.
pub open spec fn is_visible(c: Cue) -> bool {
    c.text.len() > 0 && c.end_us > c.start_us
}

/// The cues of decoded subtitles that show any text for any time, in the order of decoding.
pub open spec fn event_cues(events: Seq<SubtitleEvent>) -> Seq<Cue> {
    events.map_values(|e: SubtitleEvent| event_cue(e)).filter(|c: Cue| is_visible(c))
}

/// The cues of an embedded stream are in order, and are the visible ones of those decoded.
pub proof fn lemma_embedded_cues_in_order(events: Seq<SubtitleEvent>)
    ensures
        in_order(sorted(event_cues(events), starts_first())),
        sorted(event_cues(events), starts_first()).to_multiset() == event_cues(
            events,
        ).to_multiset(),
{
    lemma_in_order(event_cues(events));
}

/// The cues of an embedded subtitle stream, of which `events` are what its packets decode to: none
/// for pictures, else those that show any text for any time, in the order of their starts.
pub fn decode_embedded_subtitles(codec_name: &str, events: &Vec<SubtitleEvent>) -> (r: Vec<
    SrtEntry,
>)
    requires
        forall|i: int| 0 <= i < events.len() ==> (#[trigger] events@[i]).in_range(),
    ensures
        cues(r@) == if is_bitmap_codec(codec_name@) {
            Seq::empty()
        } else {
            sorted(event_cues(events@), starts_first())
        },
{
    let mut entries: Vec<SrtEntry> = Vec::new();
    if bitmap_codec(codec_name) {
        assert(cues(entries@) =~= Seq::empty());
        return entries;
    }
    let ghost all = events@.map_values(|e: SubtitleEvent| event_cue(e));
    let ghost keep = |c: Cue| is_visible(c);
    let mut i: usize = 0;
    proof {
        reveal(Seq::filter);
        assert(all.take(0).filter(keep) =~= Seq::empty());
        assert(cues(entries@) =~= sorted(Seq::empty(), starts_first()));
    }
    while i < events.len()
        invariant
            i <= events.len(),
            all == events@.map_values(|e: SubtitleEvent| event_cue(e)),
            keep == (|c: Cue| is_visible(c)),
            forall|i: int| 0 <= i < events.len() ==> (#[trigger] events@[i]).in_range(),
            cues(entries@) == sorted(all.take(i as int).filter(keep), starts_first()),
        decreases events.len() - i,
    {
        let event = &events[i];
        let base: i64 = match event.pts_us {
            Some(us) => us,
            None => 0,
        };
        assert(event.in_range());
        let start_us: i64 = base + event.start_ms as i64 * 1000;
        let end_us: i64 = base + event.end_ms as i64 * 1000;
        let text = extract_subtitle_text(event);
        let visible: bool = chars_of(text.as_str()).len() > 0 && end_us > start_us;
        let entry = SrtEntry { start_us, end_us, text };
        proof {
            assert(entry@ == all[i as int]);
            reveal(Seq::filter);
            assert(all.take(i + 1).drop_last() =~= all.take(i as int));
            assert(all.take(i + 1).last() == entry@);
        }
        if visible {
            let ghost before = all.take(i as int).filter(keep);
            assert(before.push(entry@).drop_last() =~= before);
            insert_in_order(&mut entries, entry);
        }
        i = i + 1;
    }
    assert(all.take(i as int) =~= all);
    entries
}

/// A block of a SubRip file: a number, when the text is shown from and to, and its lines.
pub struct SrtBlock {
    pub number: nat,
    pub from: (nat, nat, nat, nat),
    pub to: (nat, nat, nat, nat),
    pub lines: Seq<Seq<char>>,
}

/// Whether a time is one of hours, minutes, seconds and milliseconds that a file can give.
pub open spec fn is_srt_time(t: (nat, nat, nat, nat)) -> bool {
    t.0 * 3600 + t.1 * 60 + t.2 < 0x4000_0000 && t.3 <= 999
}

/// Whether a block is well formed: there is at least one line, each is one line, and none is blank.
/// What else stands in the lines does not matter.
pub open spec fn is_srt_block(b: SrtBlock) -> bool {
    &&& b.number <= u32::MAX
    &&& is_srt_time(b.from)
    &&& is_srt_time(b.to)
    &&& b.lines.len() > 0
    &&& forall|i: int| 0 <= i < b.lines.len() ==> is_line(#[trigger] b.lines[i])
    &&& forall|i: int|
        0 <= i < b.lines.len() ==> exists|k: int|
            0 <= k < (#[trigger] b.lines[i]).len() && !is_space(#[trigger] b.lines[i][k])
}

/// The timing line of a block.
pub open spec fn timing_text(b: SrtBlock) -> Seq<char> {
    srt_time_text(b.from.0, b.from.1, b.from.2, b.from.3) + " --> "@ + srt_time_text(
        b.to.0,
        b.to.1,
        b.to.2,
        b.to.3,
    )
}

/// A block as its lines: the number, the timing line, the lines of the text, and a blank one.
pub open spec fn block_lines(b: SrtBlock) -> Seq<Seq<char>> {
    seq![numeral(b.number), timing_text(b)] + b.lines + seq![Seq::empty()]
}

/// The lines of blocks, one behind the other.
pub open spec fn blocks_lines(blocks: Seq<SrtBlock>) -> Seq<Seq<char>>
    decreases blocks.len(),
{
    if blocks.len() == 0 {
        Seq::empty()
    } else {
        block_lines(blocks[0]) + blocks_lines(blocks.drop_first())
    }
}

proof fn lemma_number_is_preamble(n: nat)
    requires
        n <= u32::MAX,
    ensures
        is_preamble(numeral(n)),
{
    lemma_numeral(n);
    let s = numeral(n);
    assert(is_digit(s[0]));
    assert(is_digit(s[s.len() - 1]));
    lemma_trimmed(s);
    lemma_numeral_reads_back(n, u32::MAX as int);
}

#[verifier::rlimit(50)]
proof fn lemma_timing_is_no_preamble(b: SrtBlock)
    requires
        is_srt_block(b),
    ensures
        !is_preamble(timing_text(b)),
        is_line(timing_text(b)),
{
    let s = timing_text(b);
    let a = srt_time_text(b.from.0, b.from.1, b.from.2, b.from.3);
    let c = srt_time_text(b.to.0, b.to.1, b.to.2, b.to.3);
    lemma_time_characters(b.from.0, b.from.1, b.from.2, b.from.3);
    lemma_time_characters(b.to.0, b.to.1, b.to.2, b.to.3);
    reveal_strlit(" --> ");
    assert(s[0] == a[0]);
    assert(s[s.len() - 1] == c[c.len() - 1]);
    lemma_trimmed(s);
    assert(s[a.len() as int] == ' ');
    lemma_only_digits_are_numbers(s, u32::MAX as int);
    assert forall|i: int| 0 <= i < s.len() implies #[trigger] s[i] != '\n' by {
        if i < a.len() {
            assert(s[i] == a[i]);
        } else if i >= a.len() + 5 {
            assert(s[i] == c[i - a.len() - 5]);
        }
    }
}

proof fn lemma_text_ends(s: Seq<Seq<char>>, i: int, n: int)
    requires
        0 <= i,
        0 <= n,
        i + n < s.len(),
        forall|k: int| i <= k < i + n ==> !is_blank(#[trigger] s[k]),
        is_blank(s[i + n]),
    ensures
        text_end(s, i) == i + n,
    decreases n,
{
    if n > 0 {
        assert(!is_blank(s[i]));
        lemma_text_ends(s, i + 1, n - 1);
    }
}

#[verifier::spinoff_prover]
#[verifier::rlimit(50)]
proof fn lemma_block_places(s: Seq<Seq<char>>, i: int, b: SrtBlock)
    requires
        0 <= i,
        i + block_lines(b).len() <= s.len(),
        s.subrange(i, i + block_lines(b).len()) == block_lines(b),
    ensures
        block_lines(b).len() == b.lines.len() + 3,
        s[i] == numeral(b.number),
        s[i + 1] == timing_text(b),
        s.subrange(i + 2, i + 2 + b.lines.len()) == b.lines,
        s[i + 2 + b.lines.len()] == Seq::<char>::empty(),
{
    let lines = block_lines(b);
    let part = s.subrange(i, i + lines.len());
    assert(part[0] == s[i] && part[1] == s[i + 1]);
    assert(part[b.lines.len() as int + 2] == s[i + 2 + b.lines.len()]);
    assert forall|k: int| 0 <= k < b.lines.len() implies s[i + 2 + k] == #[trigger] b.lines[k] by {
        assert(part[k + 2] == s[i + 2 + k]);
        assert(lines[k + 2] == b.lines[k]);
    }
    assert(s.subrange(i + 2, i + 2 + b.lines.len()) =~= b.lines);
}

#[verifier::spinoff_prover]
#[verifier::rlimit(50)]
proof fn lemma_block_text(s: Seq<Seq<char>>, i: int, b: SrtBlock)
    requires
        is_srt_block(b),
        0 <= i,
        i + b.lines.len() < s.len(),
        s.subrange(i, i + b.lines.len()) == b.lines,
        s[i + b.lines.len()] == Seq::<char>::empty(),
    ensures
        forall|k: int| i <= k < i + b.lines.len() ==> !is_blank(#[trigger] s[k]),
        is_blank(s[i + b.lines.len()]),
{
    assert forall|k: int| i <= k < i + b.lines.len() implies !is_blank(#[trigger] s[k]) by {
        assert(s.subrange(i, i + b.lines.len())[k - i] == s[k]);
        let line = b.lines[k - i];
        assert(exists|j: int| 0 <= j < line.len() && !is_space(#[trigger] line[j]));
        lemma_trimmed(line);
    }
    lemma_trimmed(Seq::empty());
}

proof fn lemma_preamble_is_number(s: Seq<Seq<char>>, i: int)
    requires
        0 <= i,
        i + 1 < s.len(),
        is_preamble(s[i]),
        !is_preamble(s[i + 1]),
    ensures
        preamble_end(s, i) == i + 1,
{
    assert(preamble_end(s, i + 1) == i + 1);
}

proof fn lemma_cues_step(s: Seq<Seq<char>>, i: int, k: int, t: int, start_us: int, end_us: int)
    requires
        0 <= i <= k < s.len(),
        preamble_end(s, i) == k,
        parsed_timing(s[k]) == Some((start_us, end_us)),
        text_end(s, k + 1) == t,
        k + 1 < t <= s.len(),
    ensures
        cues_from(s, i) == seq![
            Cue { start_us, end_us, text: joined(s.subrange(k + 1, t), "\n"@) },
        ] + cues_from(s, t + 1),
{
    reveal(cues_from);
}

#[verifier::spinoff_prover]
#[verifier::rlimit(50)]
proof fn lemma_cue_read(s: Seq<Seq<char>>, i: int, start_us: int, end_us: int, n: int)
    requires
        0 <= i,
        0 < n,
        i + n + 2 < s.len(),
        is_preamble(s[i]),
        !is_preamble(s[i + 1]),
        parsed_timing(s[i + 1]) == Some((start_us, end_us)),
        forall|k: int| i + 2 <= k < i + 2 + n ==> !is_blank(#[trigger] s[k]),
        is_blank(s[i + 2 + n]),
    ensures
        cues_from(s, i) == seq![
            Cue { start_us, end_us, text: joined(s.subrange(i + 2, i + 2 + n), "\n"@) },
        ] + cues_from(s, i + 3 + n),
{
    lemma_preamble_is_number(s, i);
    lemma_text_ends(s, i + 2, n);
    lemma_cues_step(s, i, i + 1, i + 2 + n, start_us, end_us);
}

/// A block of a SubRip file is read as one cue, from the time and to the time that its timing line
/// gives, with exactly its lines as the text, whatever they hold; and reading goes on behind its
/// blank line.
#[verifier::spinoff_prover]
#[verifier::rlimit(50)]
pub proof fn lemma_srt_block_is_one_cue(s: Seq<Seq<char>>, i: int, b: SrtBlock)
    requires
        is_srt_block(b),
        0 <= i,
        i + block_lines(b).len() <= s.len(),
        s.subrange(i, i + block_lines(b).len()) == block_lines(b),
    ensures
        cues_from(s, i) == seq![cues_from(s, i)[0]] + cues_from(s, i + block_lines(b).len()),
        cues_from(s, i).len() > 0,
        cues_from(s, i)[0].start_us == (b.from.0 * 3600 + b.from.1 * 60 + b.from.2) * 1_000_000
            + b.from.3 * 1_000,
        cues_from(s, i)[0].end_us == (b.to.0 * 3600 + b.to.1 * 60 + b.to.2) * 1_000_000 + b.to.3
            * 1_000,
        cues_from(s, i)[0].text + seq!['\n'] == lines_text(b.lines),
{
    let n = b.lines.len() as int;
    lemma_block_places(s, i, b);
    lemma_number_is_preamble(b.number);
    lemma_timing_is_no_preamble(b);
    lemma_srt_timing_exact(b.from, b.to);
    lemma_block_text(s, i + 2, b);
    let (start_us, end_us) = parsed_timing(timing_text(b)).unwrap();
    lemma_cue_read(s, i, start_us, end_us, n);
    lemma_joined_lines(b.lines);
}

#[verifier::spinoff_prover]
#[verifier::rlimit(50)]
proof fn lemma_blocks_read(s: Seq<Seq<char>>, i: int, blocks: Seq<SrtBlock>)
    requires
        forall|k: int| 0 <= k < blocks.len() ==> is_srt_block(#[trigger] blocks[k]),
        0 <= i,
        i + blocks_lines(blocks).len() == s.len(),
        s.skip(i) == blocks_lines(blocks),
    ensures
        cues_from(s, i).len() == blocks.len(),
        forall|k: int|
            0 <= k < blocks.len() ==> {
                let b = blocks[k];
                let cue = #[trigger] cues_from(s, i)[k];
                &&& cue.start_us == (b.from.0 * 3600 + b.from.1 * 60 + b.from.2) * 1_000_000
                    + b.from.3 * 1_000
                &&& cue.end_us == (b.to.0 * 3600 + b.to.1 * 60 + b.to.2) * 1_000_000 + b.to.3
                    * 1_000
                &&& cue.text + seq!['\n'] == lines_text(b.lines)
            },
    decreases blocks.len(),
{
    if blocks.len() == 0 {
        reveal(cues_from);
        assert(cues_from(s, i) =~= Seq::empty());
    } else {
        let b = blocks[0];
        let rest = blocks.drop_first();
        let lines = block_lines(b);
        let next = i + lines.len();
        assert(is_srt_block(b));
        assert(s.subrange(i, next) =~= s.skip(i).take(lines.len() as int));
        assert(s.skip(i).take(lines.len() as int) =~= lines);
        assert(s.skip(next) =~= s.skip(i).skip(lines.len() as int));
        assert(s.skip(i).skip(lines.len() as int) =~= blocks_lines(rest));
        lemma_srt_block_is_one_cue(s, i, b);
        assert forall|k: int| 0 <= k < rest.len() implies is_srt_block(#[trigger] rest[k]) by {
            assert(rest[k] == blocks[k + 1]);
        }
        lemma_blocks_read(s, next, rest);
        let all = cues_from(s, i);
        assert forall|k: int| 0 <= k < blocks.len() implies {
            let b = blocks[k];
            let cue = #[trigger] all[k];
            &&& cue.start_us == (b.from.0 * 3600 + b.from.1 * 60 + b.from.2) * 1_000_000
                + b.from.3 * 1_000
            &&& cue.end_us == (b.to.0 * 3600 + b.to.1 * 60 + b.to.2) * 1_000_000 + b.to.3 * 1_000
            &&& cue.text + seq!['\n'] == lines_text(b.lines)
        } by {
            if k > 0 {
                assert(all[k] == cues_from(s, next)[k - 1]);
                assert(rest[k - 1] == blocks[k]);
            }
        }
    }
}

#[verifier::spinoff_prover]
#[verifier::rlimit(50)]
proof fn lemma_blocks_are_lines(blocks: Seq<SrtBlock>)
    requires
        forall|k: int| 0 <= k < blocks.len() ==> is_srt_block(#[trigger] blocks[k]),
    ensures
        forall|i: int| 0 <= i < blocks_lines(blocks).len() ==> is_line(#[trigger] blocks_lines(blocks)[i]),
    decreases blocks.len(),
{
    if blocks.len() > 0 {
        let b = blocks[0];
        let rest = blocks.drop_first();
        assert(is_srt_block(b));
        assert forall|k: int| 0 <= k < rest.len() implies is_srt_block(#[trigger] rest[k]) by {
            assert(rest[k] == blocks[k + 1]);
        }
        lemma_blocks_are_lines(rest);
        lemma_timing_is_no_preamble(b);
        lemma_numeral(b.number);
        let lines = block_lines(b);
        let all = blocks_lines(blocks);
        assert forall|i: int| 0 <= i < all.len() implies is_line(#[trigger] all[i]) by {
            if i >= lines.len() {
                assert(all[i] == blocks_lines(rest)[i - lines.len()]);
            } else if i == 0 {
                assert(all[i] == numeral(b.number));
                let s = numeral(b.number);
                assert(is_digit(s[s.len() - 1]));
            } else if i == 1 {
                assert(all[i] == timing_text(b));
            } else if i < lines.len() - 1 {
                assert(all[i] == b.lines[i - 2]);
            } else {
                assert(all[i] == Seq::<char>::empty());
            }
        }
    }
}

/// A well-formed SubRip file is read back whole: as many cues as blocks, in their order where they
/// start in order, each from and to the times of its block and with exactly its lines, whatever they
/// hold.
#[verifier::spinoff_prover]
#[verifier::rlimit(50)]
pub proof fn lemma_srt_file_reads_back(blocks: Seq<SrtBlock>)
    requires
        forall|k: int| 0 <= k < blocks.len() ==> is_srt_block(#[trigger] blocks[k]),
        forall|i: int, j: int|
            0 <= i < j < blocks.len() ==> {
                let a = (#[trigger] blocks[i]).from;
                let b = (#[trigger] blocks[j]).from;
                (a.0 * 3600 + a.1 * 60 + a.2) * 1_000 + a.3 <= (b.0 * 3600 + b.1 * 60 + b.2) * 1_000
                    + b.3
            },
    ensures
        parsed_srt(lines_text(blocks_lines(blocks))).len() == blocks.len(),
        forall|k: int|
            0 <= k < blocks.len() ==> {
                let b = blocks[k];
                let cue = #[trigger] parsed_srt(lines_text(blocks_lines(blocks)))[k];
                &&& cue.start_us == (b.from.0 * 3600 + b.from.1 * 60 + b.from.2) * 1_000_000
                    + b.from.3 * 1_000
                &&& cue.end_us == (b.to.0 * 3600 + b.to.1 * 60 + b.to.2) * 1_000_000 + b.to.3
                    * 1_000
                &&& cue.text + seq!['\n'] == lines_text(b.lines)
            },
{
    let s = blocks_lines(blocks);
    lemma_blocks_are_lines(blocks);
    lemma_lines_read_back(s);
    assert(s.skip(0) =~= s);
    lemma_blocks_read(s, 0, blocks);
    let all = cues_from(s, 0);
    assert forall|i: int, j: int| 0 <= i < j < all.len() implies starts_first()(
        #[trigger] all[i],
        #[trigger] all[j],
    ) by {
        let a = blocks[i].from;
        let b = blocks[j].from;
        assert((a.0 * 3600 + a.1 * 60 + a.2) * 1_000 + a.3 <= (b.0 * 3600 + b.1 * 60 + b.2) * 1_000
            + b.3);
    }
    lemma_sorting_keeps_order(all, starts_first());
}

proof fn lemma_found_behind(s: Seq<char>, c: char, p: int, i: int)
    requires
        0 <= p <= s.len(),
        0 <= i,
    ensures
        find_char(s, c, p + i) == p + find_char(s.skip(p), c, i),
    decreases s.len() - p - i,
{
    if p + i < s.len() && s[p + i] != c {
        assert(s.skip(p)[i] == s[p + i]);
        lemma_found_behind(s, c, p, i + 1);
    } else if p + i < s.len() {
        assert(s.skip(p)[i] == s[p + i]);
    }
}

#[verifier::rlimit(50)]
proof fn lemma_untagged_behind(s: Seq<char>, p: int, i: int)
    requires
        0 <= p <= s.len(),
        0 <= i,
    ensures
        untagged(s, p + i) == untagged(s.skip(p), i),
    decreases s.len() + 1 - p - i,
{
    let t = s.skip(p);
    if p + i < s.len() {
        assert(t[i] == s[p + i]);
        if s[p + i] == '{' {
            lemma_found_behind(s, '}', p, i + 1);
            let j = find_char(t, '}', i + 1);
            if i < j <= t.len() {
                lemma_untagged_behind(s, p, j + 1);
            }
        } else {
            if p + i + 1 < s.len() {
                assert(t[i + 1] == s[p + i + 1]);
            }
            lemma_untagged_behind(s, p, i + 1);
            if p + i + 1 < s.len() {
                lemma_untagged_behind(s, p, i + 2);
            }
        }
    }
}

proof fn lemma_untagged_plain(s: Seq<char>, i: int, n: int)
    requires
        0 <= i <= n <= s.len(),
        forall|k: int| 0 <= k < n ==> #[trigger] s[k] != '{' && s[k] != '\\',
    ensures
        untagged(s, i) == s.subrange(i, n) + untagged(s, n),
    decreases n - i,
{
    if i < n {
        assert(s[i] != '{' && s[i] != '\\');
        lemma_untagged_plain(s, i + 1, n);
        assert(seq![s[i]] + (s.subrange(i + 1, n) + untagged(s, n)) =~= s.subrange(i, n)
            + untagged(s, n));
    } else {
        assert(s.subrange(i, n) + untagged(s, n) =~= untagged(s, n));
    }
}

/// An override tag in braces goes, and what stands before and behind it stays.
pub proof fn lemma_tag_is_dropped(a: Seq<char>, tag: Seq<char>, b: Seq<char>)
    requires
        forall|k: int| 0 <= k < a.len() ==> #[trigger] a[k] != '{' && a[k] != '\\',
        forall|k: int| 0 <= k < tag.len() ==> #[trigger] tag[k] != '}',
    ensures
        untagged(a + seq!['{'] + tag + seq!['}'] + b, 0) == a + untagged(b, 0),
{
    let s = a + seq!['{'] + tag + seq!['}'] + b;
    let n = a.len() as int;
    let j = n + 1 + tag.len();
    assert forall|k: int| 0 <= k < n implies #[trigger] s[k] != '{' && s[k] != '\\' by {
        assert(s[k] == a[k]);
    }
    lemma_untagged_plain(s, 0, n);
    assert(s.subrange(0, n) =~= a);
    assert(s[n] == '{');
    assert forall|k: int| n + 1 <= k < j implies #[trigger] s[k] != '}' by {
        assert(s[k] == tag[k - n - 1]);
    }
    assert(s[j] == '}');
    lemma_found(s, '}', n + 1, j);
    lemma_untagged_behind(s, j + 1, 0);
    assert(s.skip(j + 1) =~= b);
}

/// An escaped line break becomes one, and what stands before and behind it stays.
pub proof fn lemma_break_is_made(a: Seq<char>, c: char, b: Seq<char>)
    requires
        forall|k: int| 0 <= k < a.len() ==> #[trigger] a[k] != '{' && a[k] != '\\',
        c == 'N' || c == 'n',
    ensures
        untagged(a + seq!['\\', c] + b, 0) == a + seq!['\n'] + untagged(b, 0),
{
    let s = a + seq!['\\', c] + b;
    let n = a.len() as int;
    assert forall|k: int| 0 <= k < n implies #[trigger] s[k] != '{' && s[k] != '\\' by {
        assert(s[k] == a[k]);
    }
    lemma_untagged_plain(s, 0, n);
    assert(s.subrange(0, n) =~= a);
    assert(s[n] == '\\' && s[n + 1] == c);
    lemma_untagged_behind(s, n + 2, 0);
    assert(s.skip(n + 2) =~= b);
    assert(a + (seq!['\n'] + untagged(b, 0)) =~= a + seq!['\n'] + untagged(b, 0));
}

/// A text without braces and backslashes stays as it is.
pub proof fn lemma_plain_stays(a: Seq<char>)
    requires
        forall|k: int| 0 <= k < a.len() ==> #[trigger] a[k] != '{' && a[k] != '\\',
    ensures
        untagged(a, 0) == a,
{
    lemma_untagged_plain(a, 0, a.len() as int);
    assert(a.subrange(0, a.len() as int) + Seq::<char>::empty() =~= a);
}

/// The fields of a dialogue line, each with the comma behind it.
pub open spec fn dialogue_fields(fields: Seq<Seq<char>>) -> Seq<char>
    decreases fields.len(),
{
    if fields.len() == 0 {
        Seq::empty()
    } else {
        fields[0] + seq![','] + dialogue_fields(fields.drop_first())
    }
}

#[verifier::spinoff_prover]
#[verifier::rlimit(50)]
proof fn lemma_dialogue_from(
    before: Seq<char>,
    fields: Seq<Seq<char>>,
    text: Seq<char>,
    commas: int,
)
    requires
        0 <= commas,
        commas + fields.len() == 8,
        fields.len() > 0,
        forall|k: int, x: int|
            0 <= k < fields.len() && 0 <= x < fields[k].len() ==> #[trigger] fields[k][x] != ',',
    ensures
        dialogue_start(before + dialogue_fields(fields) + text, before.len() as int, commas)
            == before.len() + dialogue_fields(fields).len(),
    decreases fields.len(),
{
    let s = before + dialogue_fields(fields) + text;
    let i = before.len() as int;
    let f = fields[0];
    let rest = fields.drop_first();
    let j = i + f.len();
    assert forall|k: int| i <= k < j implies #[trigger] s[k] != ',' by {
        assert(s[k] == fields[0][k - i]);
    }
    assert(s[j] == ',');
    lemma_dialogue_to_comma(s, i, j, commas);
    if commas < 7 {
        let next = before + f + seq![','];
        assert(s =~= next + dialogue_fields(rest) + text);
        assert forall|k: int, x: int|
            0 <= k < rest.len() && 0 <= x < rest[k].len() implies #[trigger] rest[k][x] != ',' by {
            assert(rest[k][x] == fields[k + 1][x]);
        }
        lemma_dialogue_from(next, rest, text, commas + 1);
    } else {
        assert(rest.len() == 0);
        assert(dialogue_fields(rest) =~= Seq::empty());
    }
}

proof fn lemma_dialogue_to_comma(s: Seq<char>, i: int, j: int, commas: int)
    requires
        0 <= i <= j < s.len(),
        forall|k: int| i <= k < j ==> #[trigger] s[k] != ',',
        s[j] == ',',
    ensures
        dialogue_start(s, i, commas) == if commas == 7 {
            j + 1
        } else {
            dialogue_start(s, j + 1, commas + 1)
        },
    decreases j - i,
{
    if i < j {
        assert(s[i] != ',');
        lemma_dialogue_to_comma(s, i + 1, j, commas);
    }
}

/// Of a dialogue line the eight fields before the text go, and the text stays whole, with the commas
/// that it holds.
pub proof fn lemma_dialogue_text_is_kept(fields: Seq<Seq<char>>, text: Seq<char>)
    requires
        fields.len() == 8,
        forall|k: int, x: int|
            0 <= k < fields.len() && 0 <= x < fields[k].len() ==> #[trigger] fields[k][x] != ',',
    ensures
        stripped_ass(dialogue_fields(fields) + text) == trim(untagged(text, 0)),
{
    let s = dialogue_fields(fields) + text;
    lemma_dialogue_from(Seq::empty(), fields, text, 0);
    assert(Seq::<char>::empty() + dialogue_fields(fields) + text =~= s);
    assert(s.skip(dialogue_fields(fields).len() as int) =~= text);
}

/// A cue of an embedded subtitle is shown from and to its offsets behind the time stamp.
pub proof fn lemma_embedded_times(e: SubtitleEvent)
    ensures
        e.pts_us matches Some(us) ==> event_cue(e).start_us == us + e.start_ms * 1000
            && event_cue(e).end_us == us + e.end_ms * 1000,
        e.pts_us is None ==> event_cue(e).start_us == e.start_ms * 1000 && event_cue(e).end_us
            == e.end_ms * 1000,
        event_cue(e).text == event_text(e),
{
}

/// The text of an embedded subtitle is that of its rectangles, in their order, each on its own
/// lines; a rectangle without text adds nothing.
pub proof fn lemma_rectangles_are_lines(s: Seq<SubtitleRect>, r: SubtitleRect, e: SubtitleEvent)
    ensures
        rect_texts(Seq::empty()).len() == 0,
        rect_text(r).len() > 0 ==> rect_texts(s.push(r)) == rect_texts(s).push(rect_text(r)),
        rect_text(r).len() == 0 ==> rect_texts(s.push(r)) == rect_texts(s),
        rect_texts(e.rects@).len() > 0 ==> event_text(e) + seq!['\n'] == lines_text(
            rect_texts(e.rects@),
        ),
        rect_texts(e.rects@).len() == 0 ==> event_text(e).len() == 0,
        r matches SubtitleRect::Text(t) ==> rect_text(r) == trim(t@),
        r matches SubtitleRect::Ass(t) ==> rect_text(r) == stripped_ass(t@),
        r is Other ==> rect_text(r).len() == 0,
{
    reveal(Seq::filter);
    let f = |r: SubtitleRect| rect_text(r);
    let all = s.push(r).map_values(f);
    assert(all.drop_last() =~= s.map_values(f));
    assert(all.last() == rect_text(r));
    assert(Seq::<SubtitleRect>::empty().map_values(f).len() == 0);
    if rect_texts(e.rects@).len() > 0 {
        lemma_joined_lines(rect_texts(e.rects@));
    }
}

/// Of embedded subtitles those with text that last for some time are shown, all of them and no
/// others.
pub proof fn lemma_visible_cues_are_kept(events: Seq<SubtitleEvent>, e: SubtitleEvent)
    ensures
        event_cues(Seq::empty()).len() == 0,
        event_cue(e).text.len() > 0 && event_cue(e).end_us > event_cue(e).start_us ==> event_cues(
            events.push(e),
        ) == event_cues(events).push(event_cue(e)),
        event_cue(e).text.len() == 0 || event_cue(e).end_us <= event_cue(e).start_us ==> event_cues(
            events.push(e),
        ) == event_cues(events),
{
    reveal(Seq::filter);
    let f = |e: SubtitleEvent| event_cue(e);
    let all = events.push(e).map_values(f);
    assert(all.drop_last() =~= events.map_values(f));
    assert(all.last() == event_cue(e));
    assert(Seq::<SubtitleEvent>::empty().map_values(f).len() == 0);
}

/// Subtitles that are pictures are told by their codec; those of text are read.
#[verifier::rlimit(50)]
pub proof fn lemma_picture_codecs()
    ensures
        is_bitmap_codec("dvd_subtitle"@),
        is_bitmap_codec("hdmv_pgs_subtitle"@),
        is_bitmap_codec("dvb_subtitle"@),
        is_bitmap_codec("xsub"@),
        !is_bitmap_codec("subrip"@),
        !is_bitmap_codec("ass"@),
        !is_bitmap_codec("mov_text"@),
        !is_bitmap_codec("webvtt"@),
        forall|name: Seq<char>| #[trigger] is_bitmap_codec(name) ==> ends_with(name, "sub"@)
            || ends_with(name, "subtitle"@),
{
    reveal_strlit("dvd_subtitle");
    reveal_strlit("hdmv_pgs_subtitle");
    reveal_strlit("dvb_subtitle");
    reveal_strlit("xsub");
    reveal_strlit("subrip");
    reveal_strlit("ass");
    reveal_strlit("mov_text");
    reveal_strlit("webvtt");
    reveal_strlit("sub");
    reveal_strlit("subtitle");
    assert("dvd_subtitle"@.skip(4) =~= "subtitle"@);
    assert("dvb_subtitle"@.skip(4) =~= "subtitle"@);
    assert("hdmv_pgs_subtitle"@.skip(9) =~= "subtitle"@);
    assert("xsub"@.skip(1) =~= "sub"@);
}

/// A file that is not UTF-8 is read byte by byte, each byte as the character of that number.
pub proof fn lemma_bytes_as_text(bytes: Seq<u8>)
    ensures
        valid_utf8(bytes) ==> file_text(bytes) == decode_utf8(bytes),
        !valid_utf8(bytes) ==> file_text(bytes).len() == bytes.len() && forall|i: int|
            0 <= i < bytes.len() ==> (#[trigger] file_text(bytes)[i]) as int == bytes[i],
{
}

/// Beside a video the file of the same name is found, and those with something between that name and
/// the extension, in the order of the listing; no others, and none twice.
#[verifier::spinoff_prover]
#[verifier::rlimit(50)]
pub proof fn lemma_subtitle_files(
    stem: Seq<char>,
    direct: bool,
    names: Seq<Seq<char>>,
    name: Seq<char>,
)
    ensures
        direct ==> srt_names(stem, direct, names).len() > 0 && srt_names(stem, direct, names)[0]
            == stem + ".srt"@,
        srt_names(stem, false, Seq::empty()).len() == 0,
        name.len() >= stem.len() + 5 && name.take(stem.len() as int) == stem && name[stem.len() as int]
            == '.' && name.skip(name.len() - 4) == ".srt"@ ==> srt_names(
            stem,
            direct,
            names.push(name),
        ) == srt_names(stem, direct, names).push(name),
        !(name.len() >= stem.len() + 5 && name.take(stem.len() as int) == stem && name[
        stem.len() as int] == '.' && name.skip(name.len() - 4) == ".srt"@) ==> srt_names(
            stem,
            direct,
            names.push(name),
        ) == srt_names(stem, direct, names),
{
    reveal(Seq::filter);
    reveal_strlit(".");
    reveal_strlit(".srt");
    let keep = |n: Seq<char>| is_srt_variant(stem, n);
    let all = names.push(name);
    assert(all.drop_last() =~= names);
    assert(all.last() == name);
    if name.len() >= stem.len() + 1 {
        let head = name.take(stem.len() as int + 1);
        assert(head.take(stem.len() as int) =~= name.take(stem.len() as int));
        if name.take(stem.len() as int) == stem && name[stem.len() as int] == '.' {
            assert(head =~= stem + "."@);
        }
        if head == stem + "."@ {
            assert((stem + "."@).take(stem.len() as int) =~= stem);
            assert((stem + "."@)[stem.len() as int] == '.');
            assert(head[stem.len() as int] == name[stem.len() as int]);
        }
    }
    let d = if direct {
        seq![stem + ".srt"@]
    } else {
        Seq::empty()
    };
    assert(d + names.filter(keep).push(name) =~= (d + names.filter(keep)).push(name));
    assert(srt_names(stem, false, Seq::empty()) =~= Seq::empty());
}

/// At any time the text shown is that of the cue that started last, while it lasts.
pub proof fn lemma_last_started_cue_is_shown(s: Seq<Cue>, time_us: int, i: int)
    requires
        0 <= i < s.len(),
        s[i].start_us <= time_us,
        forall|j: int| i < j < s.len() ==> (#[trigger] s[j]).start_us > time_us,
    ensures
        time_us <= s[i].end_us ==> shown_at(s, time_us) == Some(s[i].text),
        time_us > s[i].end_us ==> shown_at(s, time_us) is None,
{
    lemma_started_before(s, time_us, i);
}

proof fn lemma_started_before(s: Seq<Cue>, time_us: int, i: int)
    requires
        0 <= i < s.len(),
        s[i].start_us <= time_us,
        forall|j: int| i < j < s.len() ==> (#[trigger] s[j]).start_us > time_us,
    ensures
        started(s, time_us) == i + 1,
    decreases s.len(),
{
    if s.len() > i + 1 {
        assert(s[s.len() - 1].start_us > time_us);
        let head = s.drop_last();
        assert forall|j: int| i < j < head.len() implies (#[trigger] head[j]).start_us
            > time_us by {
            assert(head[j] == s[j]);
        }
        lemma_started_before(head, time_us, i);
    }
}

/// Before the first cue starts nothing is shown.
pub proof fn lemma_nothing_before_the_first_cue(s: Seq<Cue>, time_us: int)
    requires
        forall|j: int| 0 <= j < s.len() ==> (#[trigger] s[j]).start_us > time_us,
    ensures
        shown_at(s, time_us) is None,
{
    lemma_started_none(s, time_us);
}

proof fn lemma_started_none(s: Seq<Cue>, time_us: int)
    requires
        forall|j: int| 0 <= j < s.len() ==> (#[trigger] s[j]).start_us > time_us,
    ensures
        started(s, time_us) == 0,
    decreases s.len(),
{
    if s.len() > 0 {
        assert(s[s.len() - 1].start_us > time_us);
        let head = s.drop_last();
        assert forall|j: int| 0 <= j < head.len() implies (#[trigger] head[j]).start_us > time_us by {
            assert(head[j] == s[j]);
        }
        lemma_started_none(head, time_us);
    }
}

} // verus!
