//! The spectrum display of the terminal: recent samples, their reordering for the transform, and
//! how bars are drawn.

use vstd::arithmetic::power2::{lemma2_to64, lemma_pow2_pos, lemma_pow2_unfold, pow2};
use vstd::prelude::*;

use crate::text::{append, numeral, push_numeral};

verus! {

/// How many samples are kept.
pub const RING_SIZE: usize = 4096;

/// How many samples are transformed at once.
pub const FFT_SIZE: usize = 2048;

/// The most recent samples, and how many there were in all.
#[derive(Debug)]
pub struct VizRing<S> {
    buf: Vec<S>,
    write_pos: usize,
    written: u64,
}

/// The last `count` of samples, all of them where there are fewer.
pub open spec fn last_of<S>(s: Seq<S>, count: int) -> Seq<S> {
    if s.len() <= count {
        s
    } else {
        s.skip(s.len() - count)
    }
}

/// The state of a ring of samples: the most recent ones, oldest first, and how many there were.
pub struct Recent<S> {
    pub samples: Seq<S>,
    pub written: int,
}

impl<S> View for VizRing<S> {
    type V = Recent<S>;

    closed spec fn view(&self) -> Recent<S> {
        let kept = if self.written < RING_SIZE {
            self.written as int
        } else {
            RING_SIZE as int
        };
        Recent {
            samples: Seq::new(
                kept as nat,
                |i: int| self.buf@[ring_slot(self.write_pos as int, kept, i)],
            ),
            written: self.written as int,
        }
    }
}

/// Where the sample at place `i` of the `kept` most recent ones stands.
spec fn ring_slot(write_pos: int, kept: int, i: int) -> int {
    (write_pos + RING_SIZE - kept + i) % (RING_SIZE as int)
}

impl<S: Copy> VizRing<S> {
    /// Whether the ring is as large as it should be.
    pub closed spec fn wf(self) -> bool {
        self.buf.len() == RING_SIZE && self.write_pos < RING_SIZE
    }

    /// A ring holds the last samples that there were, up to its size.
    pub proof fn lemma_kept(&self)
        requires
            self.wf(),
        ensures
            0 <= self@.written <= u64::MAX,
            self@.samples.len() == if self@.written < RING_SIZE {
                self@.written
            } else {
                RING_SIZE as int
            },
    {
    }

    /// A ring that has seen no sample. `silence` fills it until samples come.
    pub fn new(silence: S) -> (r: VizRing<S>)
        ensures
            r.wf(),
            r@.samples == Seq::<S>::empty(),
            r@.written == 0,
    {
        let mut buf: Vec<S> = Vec::new();
        while buf.len() < RING_SIZE
            invariant
                buf.len() <= RING_SIZE,
            decreases RING_SIZE - buf.len(),
        {
            buf.push(silence);
        }
        let r = VizRing { buf, write_pos: 0, written: 0 };
        assert(r@.samples =~= Seq::empty());
        r
    }

    /// Adds a sample.
    fn push_one(&mut self, sample: S)
        requires
            old(self).wf(),
            old(self)@.written < u64::MAX,
        ensures
            final(self).wf(),
            final(self)@.written == old(self)@.written + 1,
            final(self)@.samples == last_of(old(self)@.samples.push(sample), RING_SIZE as int),
    {
        let ghost before = self@.samples;
        let ghost position = self.write_pos as int;
        self.buf.set(self.write_pos, sample);
        self.write_pos = (self.write_pos + 1) % RING_SIZE;
        self.written = self.written + 1;
        assert(self@.samples =~= last_of(before.push(sample), RING_SIZE as int));
    }

    /// Adds samples of one channel.
    pub fn push_audio(&mut self, samples: &Vec<S>)
        requires
            old(self).wf(),
            old(self)@.written + samples.len() <= u64::MAX,
        ensures
            final(self).wf(),
            final(self)@.written == old(self)@.written + samples.len(),
            final(self)@.samples == last_of(
                old(self)@.samples + samples@,
                RING_SIZE as int,
            ),
    {
        let ghost before = self@.samples;
        let mut i: usize = 0;
        proof {
            assert(before.len() <= RING_SIZE);
            assert(before + samples@.take(0) =~= before);
        }
        while i < samples.len()
            invariant
                i <= samples.len(),
                self.wf(),
                old(self)@.written + samples.len() <= u64::MAX,
                self@.written == old(self)@.written + i,
                before == old(self)@.samples,
                self@.samples == last_of(before + samples@.take(i as int), RING_SIZE as int),
            decreases samples.len() - i,
        {
            self.push_one(samples[i]);
            proof {
                let all = before + samples@.take(i as int);
                assert(before + samples@.take(i + 1) =~= all.push(samples@[i as int]));
                assert(last_of(
                    last_of(all, RING_SIZE as int).push(samples@[i as int]),
                    RING_SIZE as int,
                ) =~= last_of(all.push(samples@[i as int]), RING_SIZE as int));
            }
            i = i + 1;
        }
        assert(samples@.take(i as int) =~= samples@);
    }

    /// The most recent samples, up to `count`; none where nothing was added since `generation`,
    /// which is brought up to date.
    pub fn read_recent(&self, count: usize, generation: &mut u64) -> (out: Vec<S>)
        requires
            self.wf(),
        ensures
            *final(generation) == self@.written,
            out@ == if self@.written == *old(generation) {
                Seq::<S>::empty()
            } else {
                last_of(self@.samples, count as int)
            },
    {
        let mut out: Vec<S> = Vec::new();
        if self.written == *generation {
            return out;
        }
        *generation = self.written;
        let kept: usize = if self.written < RING_SIZE as u64 {
            self.written as usize
        } else {
            RING_SIZE
        };
        let available: usize = if kept < count {
            kept
        } else {
            count
        };
        let start: usize = (self.write_pos + RING_SIZE - available) % RING_SIZE;
        let ghost wanted = last_of(self@.samples, count as int);
        let mut i: usize = 0;
        while i < available
            invariant
                i <= available,
                self.wf(),
                available <= kept <= RING_SIZE,
                available <= count,
                available == kept || available == count,
                kept == self@.samples.len(),
                start == (self.write_pos + RING_SIZE - available) % (RING_SIZE as int),
                wanted == last_of(self@.samples, count as int),
                out@ == wanted.take(i as int),
            decreases available - i,
        {
            let at: usize = (start + i) % RING_SIZE;
            assert(at == ring_slot(self.write_pos as int, kept as int, (kept - available) + i));
            assert(self@.samples[(kept - available) + i] == self.buf@[at as int]);
            assert(wanted[i as int] == self@.samples[(kept - available) + i]);
            out.push(self.buf[at]);
            assert(wanted.take(i + 1) =~= wanted.take(i as int).push(wanted[i as int]));
            i = i + 1;
        }
        assert(wanted.take(i as int) =~= wanted);
        out
    }
}

/// The number whose `bits` binary digits are those of `i` in the opposite order.
pub open spec fn reversed(i: int, bits: nat) -> int
    decreases bits,
{
    if bits == 0 {
        0
    } else {
        (i % 2) * pow2((bits - 1) as nat) + reversed(i / 2, (bits - 1) as nat)
    }
}

proof fn lemma_reversed_bounds(i: int, bits: nat)
    requires
        0 <= i,
    ensures
        0 <= reversed(i, bits) < pow2(bits),
    decreases bits,
{
    lemma2_to64();
    if bits > 0 {
        lemma_reversed_bounds(i / 2, (bits - 1) as nat);
        lemma_pow2_unfold(bits);
        let p = pow2((bits - 1) as nat) as int;
        assert(i % 2 == 0 ==> (i % 2) * p == 0) by (nonlinear_arith);
        assert(i % 2 == 1 ==> (i % 2) * p == p) by (nonlinear_arith);
    }
}

/// The highest digit becomes the lowest.
proof fn lemma_reversed_top(b: int, r: int, bits: nat)
    requires
        bits > 0,
        0 <= b <= 1,
        0 <= r < pow2((bits - 1) as nat),
    ensures
        reversed(b * pow2((bits - 1) as nat) + r, bits) == b + 2 * reversed(
            r,
            (bits - 1) as nat,
        ),
    decreases bits,
{
    lemma2_to64();
    let p = pow2((bits - 1) as nat) as int;
    let i = b * p + r;
    if bits == 1 {
        assert(p == 1);
        assert(b * 1 == b);
        assert(r == 0);
        reveal_with_fuel(reversed, 2);
        assert(i == b);
        assert((i % 2) * pow2(0) == i % 2) by (nonlinear_arith)
            requires
                pow2(0) == 1,
        ;
    } else {
        let q = pow2((bits - 2) as nat) as int;
        lemma_pow2_unfold((bits - 1) as nat);
        assert(p == 2 * q);
        assert(b * p == 2 * (b * q)) by (nonlinear_arith)
            requires
                p == 2 * q,
        ;
        assert(i % 2 == r % 2);
        assert(i / 2 == b * q + r / 2);
        lemma_reversed_top(b, r / 2, (bits - 1) as nat);
        // reversed(i, bits) = (r % 2) * p + b + 2 * reversed(r / 2, bits - 2)
        assert((r % 2) * p == 2 * ((r % 2) * q)) by (nonlinear_arith)
            requires
                p == 2 * q,
        ;
        assert(reversed(r, (bits - 1) as nat) == (r % 2) * q + reversed(
            r / 2,
            (bits - 2) as nat,
        ));
    }
}

/// Reversing the digits twice restores a number.
pub proof fn lemma_reversed_twice(i: int, bits: nat)
    requires
        0 <= i < pow2(bits),
    ensures
        reversed(reversed(i, bits), bits) == i,
        0 <= reversed(i, bits) < pow2(bits),
    decreases bits,
{
    lemma2_to64();
    lemma_reversed_bounds(i, bits);
    if bits > 0 {
        let p = pow2((bits - 1) as nat) as int;
        lemma_pow2_unfold(bits);
        let r = reversed(i / 2, (bits - 1) as nat);
        lemma_reversed_bounds(i / 2, (bits - 1) as nat);
        lemma_reversed_top(i % 2, r, bits);
        lemma_reversed_twice(i / 2, (bits - 1) as nat);
    }
}

/// The reversed number after `j`, the reversed `i - 1`: one is added at the highest digit, and
/// carried down.
fn next_reversed(j: usize, n: usize, Ghost(i): Ghost<int>, Ghost(bits): Ghost<nat>) -> (r: usize)
    requires
        bits > 0,
        n == pow2(bits),
        0 < i < n,
        j == reversed(i - 1, bits),
    ensures
        r == reversed(i, bits),
{
    let mut rest: usize = j;
    let mut bit: usize = n / 2;
    let ghost mut a: int = i - 1;
    let ghost mut m: nat = bits;
    proof {
        lemma_pow2_unfold(bits);
        lemma_reversed_bounds(i - 1, bits);
    }
    while rest >= bit
        invariant
            m > 0,
            0 <= a,
            a + 1 < pow2(m),
            bit == pow2((m - 1) as nat),
            rest == reversed(a, m),
            reversed(i, bits) == reversed(a + 1, m),
            n == pow2(bits),
            bit <= n,
            rest <= n,
        decreases m,
    {
        let ghost p = pow2((m - 1) as nat) as int;
        proof {
            lemma2_to64();
            lemma_pow2_unfold(m);
            lemma_reversed_bounds(a / 2, (m - 1) as nat);
            assert(a % 2 == 0 ==> (a % 2) * p == 0) by (nonlinear_arith);
            assert(a % 2 == 1 ==> (a % 2) * p == p) by (nonlinear_arith);
            assert(a % 2 == 1);
            assert((a + 1) % 2 == 0 && (a + 1) / 2 == a / 2 + 1);
            assert(((a + 1) % 2) * p == 0) by (nonlinear_arith)
                requires
                    (a + 1) % 2 == 0,
            ;
            if m == 1 {
                assert(a + 1 < 2);
            }
            lemma_pow2_unfold((m - 1) as nat);
        }
        rest = rest - bit;
        bit = bit / 2;
        proof {
            a = a / 2;
            m = (m - 1) as nat;
        }
    }
    proof {
        let p = pow2((m - 1) as nat) as int;
        lemma_pow2_unfold(m);
        lemma_reversed_bounds(a / 2, (m - 1) as nat);
        assert(a % 2 == 0 ==> (a % 2) * p == 0) by (nonlinear_arith);
        assert(a % 2 == 1 ==> (a % 2) * p == p) by (nonlinear_arith);
        assert(a % 2 == 0);
        assert((a + 1) % 2 == 1 && (a + 1) / 2 == a / 2);
        assert(((a + 1) % 2) * p == p) by (nonlinear_arith)
            requires
                (a + 1) % 2 == 1,
        ;
        lemma_reversed_bounds(a + 1, m);
        lemma_reversed_bounds(i, bits);
    }
    rest + bit
}

/// Exchanges two elements.
fn exchange<T: Copy>(v: &mut Vec<T>, i: usize, j: usize)
    requires
        i < old(v).len(),
        j < old(v).len(),
    ensures
        final(v)@ == old(v)@.update(i as int, old(v)@[j as int]).update(
            j as int,
            old(v)@[i as int],
        ),
{
    let a: T = v[i];
    let b: T = v[j];
    v.set(i, b);
    v.set(j, a);
}

/// A sequence with its elements moved to the places with their digits in the opposite order.
pub open spec fn permuted<T>(s: Seq<T>, bits: nat) -> Seq<T> {
    Seq::new(s.len(), |i: int| s[reversed(i, bits)])
}

/// Whether a sequence is moved as far as the pairs are whose smaller place lies below `i`.
spec fn permuted_below<T>(s: Seq<T>, now: Seq<T>, bits: nat, i: int) -> bool {
    &&& now.len() == s.len()
    &&& forall|k: int|
        0 <= k < s.len() ==> #[trigger] now[k] == if k < i || reversed(k, bits) < i {
            s[reversed(k, bits)]
        } else {
            s[k]
        }
}

proof fn lemma_permuted_step<T>(s: Seq<T>, now: Seq<T>, next: Seq<T>, bits: nat, i: int)
    requires
        s.len() == pow2(bits),
        0 <= i < s.len(),
        permuted_below(s, now, bits, i),
        next == if i < reversed(i, bits) {
            now.update(i, now[reversed(i, bits)]).update(reversed(i, bits), now[i])
        } else {
            now
        },
    ensures
        permuted_below(s, next, bits, i + 1),
{
    let j = reversed(i, bits);
    lemma_reversed_twice(i, bits);
    assert forall|k: int| 0 <= k < s.len() implies #[trigger] next[k] == if k < i + 1 || reversed(
        k,
        bits,
    ) < i + 1 {
        s[reversed(k, bits)]
    } else {
        s[k]
    } by {
        lemma_reversed_twice(k, bits);
        assert(now[k] == if k < i || reversed(k, bits) < i {
            s[reversed(k, bits)]
        } else {
            s[k]
        });
        if reversed(k, bits) == i {
            assert(k == j);
        }
        assert(now[i] == if i < i || j < i {
            s[j]
        } else {
            s[i]
        });
        assert(now[j] == if j < i || reversed(j, bits) < i {
            s[reversed(j, bits)]
        } else {
            s[j]
        });
    }
}

/// Moves the elements of two lists, of a length that is a power of two, to the places with their
/// digits in the opposite order.
pub fn bit_reverse_permute<T: Copy>(re: &mut Vec<T>, im: &mut Vec<T>)
    requires
        old(re).len() == old(im).len(),
        exists|bits: nat| old(re).len() == #[trigger] pow2(bits),
    ensures
        forall|bits: nat|
            old(re).len() == #[trigger] pow2(bits) ==> final(re)@ == permuted(old(re)@, bits)
                && final(im)@ == permuted(old(im)@, bits),
{
    let ghost bits = choose|bits: nat| old(re).len() == #[trigger] pow2(bits);
    let ghost first = re@;
    let ghost second = im@;
    let n: usize = re.len();
    let mut j: usize = 0;
    let mut i: usize = 1;
    proof {
        lemma2_to64();
        lemma_pow2_pos(bits);
        lemma_reversed_zero(bits);
        assert forall|k: int| 0 <= k < first.len() implies reversed(k, bits) >= 0 by {
            lemma_reversed_bounds(k, bits);
        }
        assert(permuted_below(first, re@, bits, 0));
        assert(permuted_below(second, im@, bits, 0));
        lemma_permuted_step(first, re@, re@, bits, 0);
        lemma_permuted_step(second, im@, im@, bits, 0);
    }
    while i < n
        invariant
            1 <= i,
            n == pow2(bits),
            n == first.len(),
            n == second.len(),
            n == re.len(),
            n == im.len(),
            i <= n,
            j == reversed(i - 1, bits),
            permuted_below(first, re@, bits, i as int),
            permuted_below(second, im@, bits, i as int),
        decreases n - i,
    {
        proof {
            lemma2_to64();
            lemma_reversed_bounds(i as int, bits);
        }
        j = next_reversed(j, n, Ghost(i as int), Ghost(bits));
        let ghost re_now = re@;
        let ghost im_now = im@;
        if i < j {
            exchange(re, i, j);
            exchange(im, i, j);
        }
        proof {
            lemma_permuted_step(first, re_now, re@, bits, i as int);
            lemma_permuted_step(second, im_now, im@, bits, i as int);
        }
        i = i + 1;
    }
    proof {
        assert(re@ =~= permuted(first, bits));
        assert(im@ =~= permuted(second, bits));
        assert forall|other: nat| old(re).len() == #[trigger] pow2(other) implies other
            == bits by {
            lemma_pow2_injective(other, bits);
        }
    }
}

proof fn lemma_reversed_zero(bits: nat)
    ensures
        reversed(0, bits) == 0,
    decreases bits,
{
    if bits > 0 {
        lemma_reversed_zero((bits - 1) as nat);
        assert(0 * pow2((bits - 1) as nat) == 0);
    }
}

proof fn lemma_pow2_injective(a: nat, b: nat)
    requires
        pow2(a) == pow2(b),
    ensures
        a == b,
{
    if a < b {
        vstd::arithmetic::power2::lemma_pow2_strictly_increases(a, b);
    } else if b < a {
        vstd::arithmetic::power2::lemma_pow2_strictly_increases(b, a);
    }
}

/// Reordering twice restores the order.
pub proof fn lemma_permute_twice<T>(s: Seq<T>, bits: nat)
    requires
        s.len() == pow2(bits),
    ensures
        permuted(permuted(s, bits), bits) == s,
{
    assert forall|i: int| 0 <= i < s.len() implies permuted(permuted(s, bits), bits)[i] == s[i] by {
        lemma_reversed_twice(i, bits);
    }
    assert(permuted(permuted(s, bits), bits) =~= s);
}

/// How many bars fit a width.
pub open spec fn fitting_bars(cols: int) -> int {
    let fitting = (cols + 1) / 3;
    if fitting > 64 {
        64
    } else if fitting < 1 {
        1
    } else {
        fitting
    }
}

/// Computes how many bars fit the width of a terminal: each is two characters wide with a gap of
/// one, and there are at most 64.
pub fn bar_count_for_width(cols: u16) -> (r: usize)
    ensures
        r == fitting_bars(cols as int),
{
    let fitting: usize = (cols as usize + 1) / 3;
    if fitting > 64 {
        64
    } else if fitting < 1 {
        1
    } else {
        fitting
    }
}

/// The character of a bar that fills so many eighths of a row.
pub open spec fn bar_char(eighths: int) -> char {
    if eighths <= 0 {
        ' '
    } else if eighths >= 8 {
        '\u{2588}'
    } else {
        (0x2580 + eighths) as char
    }
}

fn bar_character(eighths: usize) -> (c: char)
    ensures
        c == bar_char(eighths as int),
{
    match eighths {
        0 => ' ',
        1 => '\u{2581}',
        2 => '\u{2582}',
        3 => '\u{2583}',
        4 => '\u{2584}',
        5 => '\u{2585}',
        6 => '\u{2586}',
        7 => '\u{2587}',
        _ => '\u{2588}',
    }
}

/// The colour of a row, `from_bottom` of `rows` above the lowest: green below two fifths of the
/// height, yellow below seven tenths, and red above.
pub open spec fn row_colour(from_bottom: int, rows: int) -> Seq<char> {
    if 10 * from_bottom < 4 * rows {
        "32"@
    } else if 10 * from_bottom < 7 * rows {
        "33"@
    } else {
        "31"@
    }
}

/// The bars of a row whose lowest level is `base`.
pub open spec fn row_bars(levels: Seq<usize>, base: int) -> Seq<char>
    decreases levels.len(),
{
    if levels.len() == 0 {
        Seq::empty()
    } else {
        let c = bar_char(levels.last() - base);
        row_bars(levels.drop_last(), base) + (if levels.len() > 1 {
            " "@
        } else {
            Seq::empty()
        }) + seq![c, c]
    }
}

/// What moves the cursor to a row, clears it, and sets its colour.
pub open spec fn row_start(row: int, column: int, colour: Seq<char>) -> Seq<char> {
    "\x1b["@ + numeral(row as nat) + ";1H\x1b[2K\x1b["@ + numeral(row as nat) + ";"@ + numeral(
        column as nat,
    ) + "H\x1b["@ + colour + "m"@
}

/// The first `count` rows, from the top.
pub open spec fn rendered_rows(
    levels: Seq<usize>,
    rows: int,
    start_row: int,
    start_col: int,
    count: int,
) -> Seq<char>
    decreases count,
{
    if count <= 0 {
        Seq::empty()
    } else {
        let row = count - 1;
        let from_bottom = rows - 1 - row;
        rendered_rows(levels, rows, start_row, start_col, count - 1) + row_start(
            start_row + row,
            start_col,
            row_colour(from_bottom, rows),
        ) + row_bars(levels, from_bottom * 8)
    }
}

/// Appends the bars of a row.
fn push_bars(out: &mut String, levels: &Vec<usize>, base: usize)
    ensures
        final(out)@ == old(out)@ + row_bars(levels@, base as int),
{
    let ghost before = out@;
    let mut i: usize = 0;
    assert(levels@.take(0) =~= Seq::empty());
    assert(before + row_bars(levels@.take(0), base as int) =~= before);
    while i < levels.len()
        invariant
            i <= levels.len(),
            out@ == before + row_bars(levels@.take(i as int), base as int),
        decreases levels.len() - i,
    {
        let ghost head = row_bars(levels@.take(i as int), base as int);
        assert(levels@.take(i + 1).drop_last() =~= levels@.take(i as int));
        let eighths: usize = if levels[i] > base {
            levels[i] - base
        } else {
            0
        };
        let c: char = bar_character(eighths);
        if i > 0 {
            append(out, " ");
        }
        out.push(c);
        out.push(c);
        assert(out@ =~= before + row_bars(levels@.take(i + 1), base as int));
        i = i + 1;
    }
    assert(levels@.take(i as int) =~= levels@);
}

/// Draws bars with escape sequences. `levels` holds the height of each bar in eighths of a row, of
/// which there are `rows`.
pub fn render_bars(
    out: &mut String,
    levels: &Vec<usize>,
    rows: usize,
    start_row: u16,
    start_col: u16,
)
    requires
        rows == 0 || start_row + rows - 1 <= u16::MAX,
    ensures
        final(out)@ == rendered_rows(
            levels@,
            rows as int,
            start_row as int,
            start_col as int,
            rows as int,
        ) + "\x1b[0m"@,
{
    *out = String::new();
    let mut row: usize = 0;
    while row < rows
        invariant
            row <= rows,
            rows == 0 || start_row + rows - 1 <= u16::MAX,
            out@ == rendered_rows(
                levels@,
                rows as int,
                start_row as int,
                start_col as int,
                row as int,
            ),
        decreases rows - row,
    {
        let from_bottom: usize = rows - 1 - row;
        let ghost before = out@;
        append(out, "\x1b[");
        push_numeral(out, start_row as u64 + row as u64);
        append(out, ";1H\x1b[2K\x1b[");
        push_numeral(out, start_row as u64 + row as u64);
        append(out, ";");
        push_numeral(out, start_col as u64);
        append(out, "H\x1b[");
        if 10 * from_bottom < 4 * rows {
            append(out, "32");
        } else if 10 * from_bottom < 7 * rows {
            append(out, "33");
        } else {
            append(out, "31");
        }
        append(out, "m");
        assert(out@ =~= before + row_start(
            start_row + row,
            start_col as int,
            row_colour(from_bottom as int, rows as int),
        ));
        push_bars(out, levels, from_bottom * 8);
        row = row + 1;
    }
    append(out, "\x1b[0m");
}

/// The digit at place `k` from below of a number is the digit at place `k` from above of the
/// reversed one.
pub proof fn lemma_digits_are_reversed(i: int, bits: nat, k: nat)
    requires
        0 <= i < pow2(bits),
        k < bits,
    ensures
        reversed(i, bits) / (pow2(k) as int) % 2 == i / (pow2((bits - 1 - k) as nat) as int) % 2,
    decreases bits,
{
    lemma2_to64();
    let p = pow2((bits - 1) as nat) as int;
    let rest = reversed(i / 2, (bits - 1) as nat);
    let b = i % 2;
    lemma_pow2_unfold(bits);
    lemma_reversed_bounds(i / 2, (bits - 1) as nat);
    assert(reversed(i, bits) == b * p + rest);
    if k == bits - 1 {
        assert((b * p + rest) / p == b) by {
            vstd::arithmetic::div_mod::lemma_fundamental_div_mod_converse(b * p + rest, p, b, rest);
        }
        assert(i / 1 == i);
    } else {
        let d = pow2(k) as int;
        let above = pow2((bits - 1 - k) as nat) as int;
        lemma_pow2_pos(k);
        lemma_digits_are_reversed(i / 2, (bits - 1) as nat, k);
        vstd::arithmetic::power2::lemma_pow2_adds((bits - 1 - k) as nat, k);
        assert(above * d == p);
        assert(b * p == d * (b * above)) by (nonlinear_arith)
            requires
                above * d == p,
        ;
        vstd::arithmetic::div_mod::lemma_hoist_over_denominator(rest, b * above, d as nat);
        assert((b * p + rest) / d == rest / d + b * above);
        lemma_pow2_unfold((bits - 1 - k) as nat);
        let half = pow2((bits - 2 - k) as nat) as int;
        assert(above == 2 * half);
        assert(b * above == 2 * (b * half)) by (nonlinear_arith)
            requires
                above == 2 * half,
        ;
        assert((rest / d + 2 * (b * half)) % 2 == rest / d % 2);
        lemma_pow2_pos((bits - 2 - k) as nat);
        vstd::arithmetic::div_mod::lemma_div_denominator(i, 2, half);
        assert(i / 2 / half == i / above);
    }
}

/// A transform starts with each sample moved to the place that its reversed digits give.
pub proof fn lemma_samples_are_moved<T>(s: Seq<T>, bits: nat, i: int)
    requires
        s.len() == pow2(bits),
        0 <= i < s.len(),
    ensures
        permuted(s, bits).len() == s.len(),
        permuted(s, bits)[reversed(i, bits)] == s[i],
{
    lemma_reversed_twice(i, bits);
}

/// The last samples are kept: those at the end, as many as asked for or as there are.
pub proof fn lemma_last_samples<S>(s: Seq<S>, count: int, i: int)
    requires
        0 <= count,
    ensures
        last_of(s, count).len() == if s.len() < count {
            s.len() as int
        } else {
            count
        },
        0 <= i < last_of(s, count).len() ==> last_of(s, count)[last_of(s, count).len() - 1 - i]
            == s[s.len() - 1 - i],
{
}

/// Bars two wide with a gap of one fit the width, and one more would not, up to sixty-four; there
/// is one where none fits.
pub proof fn lemma_bars_fit(cols: int)
    requires
        0 <= cols,
    ensures
        1 <= fitting_bars(cols) <= 64,
        fitting_bars(cols) > 1 ==> 3 * fitting_bars(cols) - 1 <= cols,
        fitting_bars(cols) < 64 ==> 3 * (fitting_bars(cols) + 1) - 1 > cols,
{
}

/// Each bar is drawn twice in a row and a space stands between two bars. It is blank where its
/// level does not reach into the row, the full block where it fills it, and in between the block
/// of as many eighths.
pub proof fn lemma_bars_of_a_row(levels: Seq<usize>, base: int, i: int)
    requires
        0 <= i < levels.len(),
    ensures
        row_bars(levels, base).len() == 3 * levels.len() - 1,
        row_bars(levels, base)[3 * i] == row_bars(levels, base)[3 * i + 1],
        i + 1 < levels.len() ==> row_bars(levels, base)[3 * i + 2] == ' ',
        levels[i] <= base ==> row_bars(levels, base)[3 * i] == ' ',
        0 < levels[i] - base < 8 ==> row_bars(levels, base)[3 * i] as int == 0x2580 + levels[i]
            - base,
        levels[i] - base >= 8 ==> row_bars(levels, base)[3 * i] as int == 0x2588,
    decreases levels.len(),
{
    reveal_strlit(" ");
    let before = levels.drop_last();
    let n = levels.len();
    assert(n == 1 ==> row_bars(before, base).len() == 0);
    if n > 1 {
        lemma_bars_of_a_row(before, base, if i + 1 < n {
            i
        } else {
            0
        });
        assert(row_bars(before, base).len() == 3 * (n - 1) - 1);
    }
    let level = levels[n - 1] - base;
    assert(row_bars(levels, base)[3 * (n - 1)] == bar_char(level));
    assert(row_bars(levels, base)[3 * (n - 1) + 1] == bar_char(level));
    if i + 1 < n {
        assert(row_bars(levels, base)[3 * i] == row_bars(before, base)[3 * i]);
        assert(row_bars(levels, base)[3 * i + 1] == row_bars(before, base)[3 * i + 1]);
        if i + 2 == n {
            assert(row_bars(levels, base)[3 * i + 2] == ' ');
        } else {
            assert(row_bars(levels, base)[3 * i + 2] == row_bars(before, base)[3 * i + 2]);
        }
    }
}

/// Rows are drawn from the top. A row goes to its own line of the terminal, which is cleared; it is
/// green in the lowest two fifths of the height, yellow up to seven tenths and red above, and shows
/// the part of each bar that is eight times its height above the lowest row.
pub proof fn lemma_rows_are_drawn(
    levels: Seq<usize>,
    rows: int,
    start_row: int,
    start_col: int,
    row: int,
)
    requires
        0 <= row < rows,
    ensures
        rendered_rows(levels, rows, start_row, start_col, 0) == Seq::<char>::empty(),
        ({
            let above = rows - 1 - row;
            let colour = if above * 5 < rows * 2 {
                "32"@
            } else if above * 10 < rows * 7 {
                "33"@
            } else {
                "31"@
            };
            rendered_rows(levels, rows, start_row, start_col, row + 1) == rendered_rows(
                levels,
                rows,
                start_row,
                start_col,
                row,
            ) + ("\x1b["@ + numeral((start_row + row) as nat) + ";1H\x1b[2K\x1b["@ + numeral(
                (start_row + row) as nat,
            ) + ";"@ + numeral(start_col as nat) + "H\x1b["@ + colour + "m"@) + row_bars(
                levels,
                8 * above,
            )
        }),
{
}

} // verus!
