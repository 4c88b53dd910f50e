//! Records of `iw` scan output, read into observations.

use vstd::prelude::*;
use vstd::string::*;
use vstd::std_specs::iter::IteratorSpec;
use crate::wifi::{
    before_first, decimal_value, first_token, is_digit, is_unsigned_at_most, lemma_before_first,
    parse_unsigned, unsigned_digits, width_of, Frequency, Width, Wifi, BAND_5G_START_MHZ,
};

verus! {

broadcast use vstd::string::group_string_axioms;

/// The characters of `s`, in order.
pub fn chars_of(s: &str) -> (r: Vec<char>)
    ensures
        r@ == s@,
{
    let mut out: Vec<char> = Vec::new();
    let mut it = s.chars();
    loop
        invariant
            out@ + it.remaining() == s@,
            it.obeys_prophetic_iter_laws(),
            it.decrease() is Some,
        decreases it.decrease()->0,
    {
        match it.next() {
            Some(c) => {
                out.push(c);
                proof {
                    assert(out@ + it.remaining() =~= s@);
                }
            },
            None => {
                proof {
                    assert(out@ =~= s@);
                }
                return out;
            },
        }
    }
}

/// The end of the line that starts at `p`: the first newline at or after `p`, or the
/// end of the text.
pub open spec fn line_end(s: Seq<char>, p: int) -> int
    decreases s.len() - p,
{
    if p >= s.len() || s[p] == '\n' {
        p
    } else {
        line_end(s, p + 1)
    }
}

pub proof fn lemma_line_end(s: Seq<char>, p: int)
    requires
        0 <= p,
    ensures
        p <= line_end(s, p),
        p <= s.len() ==> line_end(s, p) <= s.len(),
        forall|j: int| p <= j < line_end(s, p) ==> s[j] != '\n',
        line_end(s, p) < s.len() ==> s[line_end(s, p)] == '\n',
    decreases s.len() - p,
{
    if !(p >= s.len() || s[p] == '\n') {
        lemma_line_end(s, p + 1);
    }
}

/// Where the text of the line from `p` to its end `e` stops: a carriage return just
/// before a newline is not part of the line.
pub open spec fn line_text_end(s: Seq<char>, p: int, e: int) -> int {
    if p < e < s.len() && s[e - 1] == '\r' {
        e - 1
    } else {
        e
    }
}

/// The lines of `s` from position `p` on, as `str::lines` gives them: split at each
/// newline, with a carriage return just before it dropped; a final newline starts no
/// further line.
pub open spec fn lines_from(s: Seq<char>, p: int) -> Seq<Seq<char>>
    decreases s.len() + 1 - p,
{
    if p < 0 || p >= s.len() {
        Seq::empty()
    } else {
        proof {
            lemma_line_end(s, p);
        }
        seq![s.subrange(p, line_text_end(s, p, line_end(s, p)))] + lines_from(s, line_end(s, p) + 1)
    }
}

/// The lines of `s`.
pub open spec fn lines(s: Seq<char>) -> Seq<Seq<char>> {
    lines_from(s, 0)
}

/// Where each line of `v` starts and ends.
fn line_bounds(v: &Vec<char>) -> (r: Vec<(usize, usize)>)
    ensures
        r@.len() == lines(v@).len(),
        forall|k: int| 0 <= k < r@.len() ==> #[trigger] r@[k].0 <= r@[k].1 <= v@.len(),
        forall|k: int|
            0 <= k < r@.len() ==> v@.subrange(r@[k].0 as int, r@[k].1 as int) == #[trigger] lines(
                v@,
            )[k],
{
    let mut r: Vec<(usize, usize)> = Vec::new();
    let mut p: usize = 0;
    while p < v.len()
        invariant
            p <= v@.len(),
            r@.len() + lines_from(v@, p as int).len() == lines(v@).len(),
            forall|k: int| 0 <= k < r@.len() ==> #[trigger] r@[k].0 <= r@[k].1 <= v@.len(),
            forall|k: int|
                0 <= k < r@.len() ==> v@.subrange(r@[k].0 as int, r@[k].1 as int) == #[trigger] lines(
                    v@,
                )[k],
            forall|k: int|
                0 <= k < lines_from(v@, p as int).len() ==> #[trigger] lines_from(v@, p as int)[k]
                    == lines(v@)[r@.len() + k],
        decreases v@.len() - p,
    {
        let mut e: usize = p;
        proof {
            lemma_line_end(v@, p as int);
        }
        while e < v.len() && v[e] != '\n'
            invariant
                p <= e <= line_end(v@, p as int),
                line_end(v@, p as int) <= v@.len(),
                forall|j: int| p <= j < line_end(v@, p as int) ==> v@[j] != '\n',
                line_end(v@, p as int) < v@.len() ==> v@[line_end(v@, p as int)] == '\n',
            decreases v@.len() - e,
        {
            e += 1;
        }
        proof {
            let rest = lines_from(v@, p as int);
            assert(rest == seq![v@.subrange(p as int, line_text_end(v@, p as int, e as int))]
                + lines_from(v@, e + 1));
            assert forall|k: int| 0 <= k < lines_from(v@, e + 1).len() implies #[trigger] lines_from(
                v@,
                e + 1,
            )[k] == lines(v@)[r@.len() + 1 + k] by {
                assert(rest[k + 1] == lines_from(v@, e + 1)[k]);
            }
        }
        let text_end = if p < e && e < v.len() && v[e - 1] == '\r' {
            e - 1
        } else {
            e
        };
        let ghost n: int = r@.len() as int;
        proof {
            assert(text_end == line_text_end(v@, p as int, e as int));
            assert(lines_from(v@, p as int)[0] == lines(v@)[n + 0]);
        }
        r.push((p, text_end));
        proof {
            assert(r@[n] == (p, text_end));
            assert(v@.subrange(p as int, text_end as int) == lines(v@)[n]);
            assert(r@[n].0 <= r@[n].1 <= v@.len());
        }
        if e < v.len() {
            p = e + 1;
        } else {
            p = e;
        }
    }
    proof {
        assert(lines_from(v@, p as int).len() == 0);
    }
    r
}

/// The text after the last `c`, or all of it.
pub open spec fn after_last(t: Seq<char>, c: char) -> Seq<char>
    decreases t.len(),
{
    if t.len() == 0 {
        t
    } else if t.last() == c {
        Seq::empty()
    } else {
        after_last(t.drop_last(), c).push(t.last())
    }
}

proof fn lemma_after_last(t: Seq<char>, c: char, i: int)
    requires
        0 <= i <= t.len(),
        i == 0 || t[i - 1] == c,
        forall|j: int| i <= j < t.len() ==> t[j] != c,
    ensures
        after_last(t, c) == t.skip(i),
    decreases t.len(),
{
    if t.len() == 0 {
        assert(t.skip(i) =~= t);
    } else if i == t.len() {
        assert(t.skip(i) =~= Seq::<char>::empty());
    } else {
        lemma_after_last(t.drop_last(), c, i);
        assert(t.drop_last().skip(i).push(t.last()) =~= t.skip(i));
    }
}

/// Whether a `": "` ends at position `i` (exclusive) of `t`.
pub open spec fn colon_ends_at(t: Seq<char>, i: int) -> bool {
    2 <= i <= t.len() && t[i - 2] == ':' && t[i - 1] == ' '
}

/// The text after the last `": "`, or all of it.
pub open spec fn after_last_colon(t: Seq<char>) -> Seq<char>
    decreases t.len(),
{
    if t.len() < 2 {
        t
    } else if colon_ends_at(t, t.len() as int) {
        Seq::empty()
    } else {
        after_last_colon(t.drop_last()).push(t.last())
    }
}

proof fn lemma_after_last_colon(t: Seq<char>, i: int)
    requires
        0 <= i <= t.len(),
        i == 0 || colon_ends_at(t, i),
        forall|j: int| i < j <= t.len() ==> !colon_ends_at(t, j),
    ensures
        after_last_colon(t) == t.skip(i),
    decreases t.len(),
{
    if t.len() < 2 {
        assert(t.skip(i) =~= t);
    } else if colon_ends_at(t, t.len() as int) {
        assert(i == t.len());
        assert(t.skip(i) =~= Seq::<char>::empty());
    } else {
        let d = t.drop_last();
        assert forall|j: int| i < j <= d.len() implies !colon_ends_at(d, j) by {
            assert(!colon_ends_at(t, j));
        }
        if i > 0 {
            assert(colon_ends_at(d, i));
        }
        lemma_after_last_colon(d, i);
        assert(d.skip(i).push(t.last()) =~= t.skip(i));
    }
}

/// The first position in `[lo, hi)` holding `c`, or `hi`.
fn find_first(v: &Vec<char>, lo: usize, hi: usize, c: char) -> (r: usize)
    requires
        lo <= hi <= v@.len(),
    ensures
        lo <= r <= hi,
        r < hi ==> v@[r as int] == c,
        before_first(v@.subrange(lo as int, hi as int), c) == v@.subrange(lo as int, r as int),
{
    let mut i: usize = lo;
    while i < hi && v[i] != c
        invariant
            lo <= i <= hi <= v@.len(),
            forall|j: int| lo <= j < i ==> v@[j] != c,
        decreases hi - i,
    {
        i += 1;
    }
    proof {
        let t = v@.subrange(lo as int, hi as int);
        lemma_before_first(t, c, i - lo);
        assert(t.take(i - lo) =~= v@.subrange(lo as int, i as int));
    }
    i
}

/// Where the text after the last `c` in `[lo, hi)` starts.
fn find_after_last(v: &Vec<char>, lo: usize, hi: usize, c: char) -> (r: usize)
    requires
        lo <= hi <= v@.len(),
    ensures
        lo <= r <= hi,
        after_last(v@.subrange(lo as int, hi as int), c) == v@.subrange(r as int, hi as int),
{
    let mut i: usize = hi;
    while i > lo && v[i - 1] != c
        invariant
            lo <= i <= hi <= v@.len(),
            forall|j: int| i <= j < hi ==> v@[j] != c,
        decreases i - lo,
    {
        i -= 1;
    }
    proof {
        let t = v@.subrange(lo as int, hi as int);
        lemma_after_last(t, c, i - lo);
        assert(t.skip(i - lo) =~= v@.subrange(i as int, hi as int));
    }
    i
}

/// Where the text after the last `": "` in `[lo, hi)` starts.
fn find_after_last_colon(v: &Vec<char>, lo: usize, hi: usize) -> (r: usize)
    requires
        lo <= hi <= v@.len(),
    ensures
        lo <= r <= hi,
        after_last_colon(v@.subrange(lo as int, hi as int)) == v@.subrange(r as int, hi as int),
{
    let ghost t = v@.subrange(lo as int, hi as int);
    let mut i: usize = hi;
    while i - lo >= 2 && !(v[i - 2] == ':' && v[i - 1] == ' ')
        invariant
            lo <= i <= hi <= v@.len(),
            t == v@.subrange(lo as int, hi as int),
            forall|j: int| i - lo < j <= t.len() ==> !colon_ends_at(t, j),
        decreases i - lo,
    {
        proof {
            assert(!colon_ends_at(t, i - lo));
        }
        i -= 1;
    }
    let start = if i - lo >= 2 { i } else { lo };
    proof {
        if i - lo >= 2 {
            assert(colon_ends_at(t, i - lo));
        } else {
            assert forall|j: int| 0 < j <= t.len() implies !colon_ends_at(t, j) by {
                if j <= i - lo {
                    assert(j < 2);
                }
            }
        }
        lemma_after_last_colon(t, start - lo);
        assert(t.skip(start - lo) =~= v@.subrange(start as int, hi as int));
    }
    start
}

/// The digit at position `i` of `f` as a number, or 0 past the end.
pub open spec fn digit_at(f: Seq<char>, i: int) -> nat {
    if 0 <= i < f.len() {
        (f[i] as nat - '0' as nat) as nat
    } else {
        0
    }
}

/// The first three digits of a fraction, in thousandths.
pub open spec fn frac_milli(f: Seq<char>) -> nat {
    digit_at(f, 0) * 100 + digit_at(f, 1) * 10 + digit_at(f, 2)
}

/// Whether a signal level's text starts with a minus sign.
pub open spec fn signal_neg(t: Seq<char>) -> bool {
    t.len() > 0 && t[0] == '-'
}

/// A signal level's text without its sign.
pub open spec fn signal_body(t: Seq<char>) -> Seq<char> {
    if signal_neg(t) {
        t.drop_first()
    } else {
        t
    }
}

/// The whole part of a signal level.
pub open spec fn signal_whole(t: Seq<char>) -> Seq<char> {
    before_first(signal_body(t), '.')
}

/// The fraction digits of a signal level, after its `.`.
pub open spec fn signal_frac(t: Seq<char>) -> Seq<char> {
    if signal_whole(t).len() < signal_body(t).len() {
        signal_body(t).skip(signal_whole(t).len() as int + 1)
    } else {
        Seq::<char>::empty()
    }
}

/// A signal level such as `-45.00` dBm in thousandths of a dBm: an optional `-`, an
/// unsigned whole part, then optionally a `.` and digits, of which the first three
/// count; `None` when the text is not of that form or the value does not fit an `i32`.
pub open spec fn signal_value(t: Seq<char>) -> Option<int> {
    let m = decimal_value(unsigned_digits(signal_whole(t))) * 1000 + frac_milli(signal_frac(t));
    if is_unsigned_at_most(signal_whole(t), 2147483) && (forall|i: int|
        0 <= i < signal_frac(t).len() ==> is_digit(#[trigger] signal_frac(t)[i])) && m
        <= i32::MAX {
        Some(
            if signal_neg(t) {
                -m
            } else {
                m as int
            },
        )
    } else {
        None
    }
}

/// The digit at position `start + k` of `v`, counted while before `hi`, or 0.
fn digit_or_zero(v: &Vec<char>, start: usize, k: usize, hi: usize) -> (r: u64)
    requires
        start <= hi <= v@.len(),
        hi - start > k ==> is_digit(v@[start + k]),
    ensures
        r == (if hi - start > k {
            (v@[start + k] as nat - '0' as nat) as nat
        } else {
            0nat
        }),
        r <= 9,
{
    if hi - start > k {
        (v[start + k] as u32 - '0' as u32) as u64
    } else {
        0
    }
}

/// Reads a signal level from `[lo, hi)` of `s`, whose characters are `v`.
fn parse_signal(s: &str, v: &Vec<char>, lo: usize, hi: usize) -> (r: Option<i32>)
    requires
        v@ == s@,
        lo <= hi <= v@.len(),
    ensures
        r is Some <==> signal_value(v@.subrange(lo as int, hi as int)) is Some,
        r is Some ==> r->Some_0 == signal_value(v@.subrange(lo as int, hi as int))->Some_0,
{
    let ghost t = v@.subrange(lo as int, hi as int);
    let neg = lo < hi && v[lo] == '-';
    let b = if neg {
        lo + 1
    } else {
        lo
    };
    proof {
        assert(neg == signal_neg(t));
        assert(signal_body(t) =~= v@.subrange(b as int, hi as int));
    }
    let dot = find_first(v, b, hi, '.');
    let tok = s.substring_char(b, dot);
    proof {
        assert(tok@ == signal_whole(t));
    }
    let whole_value = match parse_unsigned(tok, 2147483) {
        Some(w) => w,
        None => {
            return None;
        },
    };
    let fs = if dot < hi {
        dot + 1
    } else {
        hi
    };
    proof {
        assert(signal_frac(t) =~= v@.subrange(fs as int, hi as int));
    }
    let ghost frac = signal_frac(t);
    let mut i: usize = fs;
    while i < hi
        invariant
            fs <= i <= hi <= v@.len(),
            frac == v@.subrange(fs as int, hi as int),
            frac == signal_frac(t),
            t == v@.subrange(lo as int, hi as int),
            forall|j: int| 0 <= j < i - fs ==> is_digit(#[trigger] frac[j]),
        decreases hi - i,
    {
        if !('0' <= v[i] && v[i] <= '9') {
            proof {
                assert(!is_digit(frac[i - fs]));
            }
            return None;
        }
        i += 1;
    }
    let d0 = digit_or_zero(v, fs, 0, hi);
    let d1 = digit_or_zero(v, fs, 1, hi);
    let d2 = digit_or_zero(v, fs, 2, hi);
    proof {
        assert(d0 == digit_at(frac, 0));
        assert(d1 == digit_at(frac, 1));
        assert(d2 == digit_at(frac, 2));
    }
    let m: u64 = whole_value * 1000 + d0 * 100 + d1 * 10 + d2;
    if m > 2147483647 {
        return None;
    }
    if neg {
        Some(-(m as i32))
    } else {
        Some(m as i32)
    }
}

/// The start of the line that opens the HT operation section.
pub open spec fn ht_prefix() -> Seq<char> {
    seq!['\t', 'H', 'T', ' ', 'o', 'p', 'e', 'r', 'a', 't', 'i', 'o', 'n']
}

pub open spec fn opens_ht(l: Seq<char>) -> bool {
    l.len() >= 13 && l.take(13) == ht_prefix()
}

/// Whether `[lo, hi)` of `v` opens the HT operation section.
fn starts_with_ht(v: &Vec<char>, lo: usize, hi: usize) -> (r: bool)
    requires
        lo <= hi <= v@.len(),
    ensures
        r == opens_ht(v@.subrange(lo as int, hi as int)),
{
    let p: Vec<char> = vec!['\t', 'H', 'T', ' ', 'o', 'p', 'e', 'r', 'a', 't', 'i', 'o', 'n'];
    proof {
        assert(p@ =~= ht_prefix());
    }
    if hi - lo < 13 {
        return false;
    }
    let ghost l = v@.subrange(lo as int, hi as int);
    let mut k: usize = 0;
    while k < 13
        invariant
            k <= 13,
            lo + 13 <= hi <= v@.len(),
            l == v@.subrange(lo as int, hi as int),
            p@ == ht_prefix(),
            forall|j: int| 0 <= j < k ==> l[j] == ht_prefix()[j],
        decreases 13 - k,
    {
        if v[lo + k] != p[k] {
            proof {
                assert(l.take(13)[k as int] != ht_prefix()[k as int]);
            }
            return false;
        }
        k += 1;
    }
    proof {
        assert(l.take(13) =~= ht_prefix());
    }
    true
}

/// The second space-separated field of a line, when the line has a space.
pub open spec fn second_field(l: Seq<char>) -> Option<Seq<char>> {
    let k = before_first(l, ' ').len();
    if k < l.len() {
        Some(before_first(l.skip(k as int + 1), ' '))
    } else {
        None
    }
}

/// The first line at or after `i` that opens the HT operation section.
pub open spec fn ht_line_from(ls: Seq<Seq<char>>, i: int) -> Option<int>
    decreases ls.len() - i,
{
    if i < 0 || i >= ls.len() {
        None
    } else if opens_ht(ls[i]) {
        Some(i)
    } else {
        ht_line_from(ls, i + 1)
    }
}

/// The band of a frequency written in MHz.
pub open spec fn frequency_of(t: Seq<char>) -> Frequency {
    let v = decimal_value(unsigned_digits(t));
    if v < BAND_5G_START_MHZ {
        Frequency::Freq2400MHz(v as u16)
    } else {
        Frequency::Freq5000MHz(v as u16)
    }
}

/// What a record of `iw` scan output gives.
pub struct RecordFields {
    pub mac: Seq<char>,
    pub frequency: Frequency,
    pub signal_mdbm: int,
    pub ssid: Seq<char>,
    pub channel: nat,
    pub width: Width,
}

/// The fields of a record of `iw` scan output, or `None` when it is malformed.
///
/// The MAC address is the first line up to a `(`; the frequency is the last word of
/// the third line; the signal is the second word of the sixth line; the SSID is the
/// last word of the ninth line. From the tenth line on, the first line that opens the
/// HT operation section is followed by the primary channel and, two lines further,
/// the channel width, each after the last `": "` of its line.
pub open spec fn record_fields(s: Seq<char>) -> Option<RecordFields> {
    let ls = lines(s);
    let h = ht_line_from(ls, 9);
    if ls.len() > 8 && is_unsigned_at_most(after_last(ls[2], ' '), 65535) && second_field(ls[5]) is Some
        && signal_value(second_field(ls[5])->Some_0) is Some && h is Some && h->Some_0 + 3 < ls.len()
        && is_unsigned_at_most(after_last_colon(ls[h->Some_0 + 1]), 255) && is_unsigned_at_most(
        first_token(after_last_colon(ls[h->Some_0 + 3])),
        255,
    ) && width_of(decimal_value(unsigned_digits(first_token(after_last_colon(ls[h->Some_0 + 3])))))
        is Some {
        Some(
            RecordFields {
                mac: before_first(ls[0], '('),
                frequency: frequency_of(after_last(ls[2], ' ')),
                signal_mdbm: signal_value(second_field(ls[5])->Some_0)->Some_0,
                ssid: after_last(ls[8], ' '),
                channel: decimal_value(unsigned_digits(after_last_colon(ls[h->Some_0 + 1]))),
                width: width_of(
                    decimal_value(unsigned_digits(first_token(after_last_colon(ls[h->Some_0 + 3])))),
                )->Some_0,
            },
        )
    } else {
        None
    }
}

/// The observation holds the record's fields.
pub open spec fn holds_fields(w: Wifi, f: RecordFields) -> bool {
    &&& w.mac@ == f.mac
    &&& w.frequency == f.frequency
    &&& w.signal_mdbm == f.signal_mdbm
    &&& w.ssid@ == f.ssid
    &&& w.channel == f.channel
    &&& w.width == f.width
}

/// A record of `iw` scan output that does not have the expected shape.
#[derive(Clone, Copy, Debug, PartialEq, Eq, Structural)]
pub enum RecordError {
    Malformed,
}

/// Reads one access point record of `iw` scan output.
pub fn parse_record(s: &str) -> (r: Result<Wifi, RecordError>)
    ensures
        r is Ok <==> record_fields(s@) is Some,
        r is Ok ==> holds_fields(r->Ok_0, record_fields(s@)->Some_0),
{
    let v = chars_of(s);
    let b = line_bounds(&v);
    let ghost ls = lines(v@);
    if b.len() < 9 {
        return Err(RecordError::Malformed);
    }
    proof {
        assert(ls[0] == v@.subrange(b@[0].0 as int, b@[0].1 as int));
        assert(ls[2] == v@.subrange(b@[2].0 as int, b@[2].1 as int));
        assert(ls[5] == v@.subrange(b@[5].0 as int, b@[5].1 as int));
        assert(ls[8] == v@.subrange(b@[8].0 as int, b@[8].1 as int));
        assert(b@[0].0 <= b@[0].1 <= v@.len());
        assert(b@[2].0 <= b@[2].1 <= v@.len());
        assert(b@[5].0 <= b@[5].1 <= v@.len());
        assert(b@[8].0 <= b@[8].1 <= v@.len());
    }
    // frequency
    let (lo, hi) = b[2];
    let t = find_after_last(&v, lo, hi, ' ');
    let frequency = match Frequency::from_str(s.substring_char(t, hi)) {
        Ok(f) => f,
        Err(_) => {
            return Err(RecordError::Malformed);
        },
    };
    // signal
    let (lo, hi) = b[5];
    let k = find_first(&v, lo, hi, ' ');
    if k == hi {
        return Err(RecordError::Malformed);
    }
    let k2 = find_first(&v, k + 1, hi, ' ');
    proof {
        let l = ls[5];
        assert(before_first(l, ' ').len() == k - lo);
        assert(l.skip(k - lo + 1) =~= v@.subrange(k + 1, hi as int));
        assert(second_field(l) == Some(v@.subrange(k + 1, k2 as int)));
    }
    let signal_mdbm = match parse_signal(s, &v, k + 1, k2) {
        Some(m) => m,
        None => {
            return Err(RecordError::Malformed);
        },
    };
    // the section that holds the channel and the width
    let mut h: usize = 9;
    while h < b.len() && !starts_with_ht(&v, b[h].0, b[h].1)
        invariant
            9 <= h <= b@.len(),
            b@.len() == ls.len(),
            ls == lines(v@),
            forall|k: int| 0 <= k < b@.len() ==> #[trigger] b@[k].0 <= b@[k].1 <= v@.len(),
            forall|k: int|
                0 <= k < b@.len() ==> v@.subrange(b@[k].0 as int, b@[k].1 as int) == #[trigger] ls[k],
            ht_line_from(ls, 9) == ht_line_from(ls, h as int),
        decreases b@.len() - h,
    {
        proof {
            assert(!opens_ht(ls[h as int]));
        }
        h += 1;
    }
    if h == b.len() || b.len() - h <= 3 {
        return Err(RecordError::Malformed);
    }
    proof {
        assert(opens_ht(ls[h as int]));
        assert(ht_line_from(ls, 9) == Some(h as int));
        assert(ls[h + 1] == v@.subrange(b@[h + 1].0 as int, b@[h + 1].1 as int));
        assert(ls[h + 3] == v@.subrange(b@[h + 3].0 as int, b@[h + 3].1 as int));
        assert(b@[h + 1].0 <= b@[h + 1].1 <= v@.len());
        assert(b@[h + 3].0 <= b@[h + 3].1 <= v@.len());
    }
    let (lo, hi) = b[h + 1];
    let t = find_after_last_colon(&v, lo, hi);
    let channel = match parse_unsigned(s.substring_char(t, hi), 255) {
        Some(c) => c as u8,
        None => {
            return Err(RecordError::Malformed);
        },
    };
    let (lo, hi) = b[h + 3];
    let t = find_after_last_colon(&v, lo, hi);
    let width = match Width::from_str(s.substring_char(t, hi)) {
        Ok(w) => w,
        Err(_) => {
            return Err(RecordError::Malformed);
        },
    };
    // the MAC address and the SSID
    let (lo, hi) = b[0];
    let k = find_first(&v, lo, hi, '(');
    let mac = String::from_str(s.substring_char(lo, k));
    let (lo, hi) = b[8];
    let t = find_after_last(&v, lo, hi, ' ');
    let ssid = String::from_str(s.substring_char(t, hi));
    Ok(Wifi { ssid, mac, channel, signal_mdbm, frequency, width })
}

/// Whether `"BSS "` starts at position `i` of `t`.
pub open spec fn bss_at(t: Seq<char>, i: int) -> bool {
    0 <= i && i + 4 <= t.len() && t[i] == 'B' && t[i + 1] == 'S' && t[i + 2] == 'S' && t[i + 3] == ' '
}

/// The first position at or after `p` where `"BSS "` starts, or the end of the text.
pub open spec fn next_bss(t: Seq<char>, p: int) -> int
    decreases t.len() - p,
{
    if p >= t.len() || bss_at(t, p) {
        p
    } else {
        next_bss(t, p + 1)
    }
}

pub proof fn lemma_next_bss(t: Seq<char>, p: int)
    requires
        0 <= p,
    ensures
        p <= next_bss(t, p),
        p <= t.len() ==> next_bss(t, p) <= t.len(),
        forall|j: int| p <= j < next_bss(t, p) ==> !bss_at(t, j),
        next_bss(t, p) < t.len() ==> bss_at(t, next_bss(t, p)),
    decreases t.len() - p,
{
    if !(p >= t.len() || bss_at(t, p)) {
        lemma_next_bss(t, p + 1);
    }
}

/// The pieces of `t` from position `p` on, split at each `"BSS "`, as `str::split` gives them.
pub open spec fn bss_pieces_from(t: Seq<char>, p: int) -> Seq<Seq<char>>
    decreases t.len() + 1 - p,
{
    if p < 0 || p > t.len() {
        Seq::empty()
    } else {
        proof {
            lemma_next_bss(t, p);
        }
        if next_bss(t, p) >= t.len() {
            seq![t.subrange(p, t.len() as int)]
        } else {
            seq![t.subrange(p, next_bss(t, p))] + bss_pieces_from(t, next_bss(t, p) + 4)
        }
    }
}

/// The access point records of scan output whose inner `BSS` words were lowered: the
/// pieces after each `"BSS "`, the text before the first one left out.
pub open spec fn bss_records(t: Seq<char>) -> Seq<Seq<char>> {
    bss_pieces_from(t, 0).drop_first()
}

/// Where each piece of `v` between `"BSS "` starts and ends.
fn bss_bounds(v: &Vec<char>) -> (r: Vec<(usize, usize)>)
    ensures
        r@.len() == bss_pieces_from(v@, 0).len(),
        forall|k: int| 0 <= k < r@.len() ==> #[trigger] r@[k].0 <= r@[k].1 <= v@.len(),
        forall|k: int|
            0 <= k < r@.len() ==> v@.subrange(r@[k].0 as int, r@[k].1 as int) == #[trigger] bss_pieces_from(
                v@,
                0,
            )[k],
{
    let ghost all = bss_pieces_from(v@, 0);
    let mut r: Vec<(usize, usize)> = Vec::new();
    let mut p: usize = 0;
    loop
        invariant
            p <= v@.len(),
            all == bss_pieces_from(v@, 0),
            r@.len() + bss_pieces_from(v@, p as int).len() == all.len(),
            bss_pieces_from(v@, p as int).len() > 0,
            forall|k: int| 0 <= k < r@.len() ==> #[trigger] r@[k].0 <= r@[k].1 <= v@.len(),
            forall|k: int|
                0 <= k < r@.len() ==> v@.subrange(r@[k].0 as int, r@[k].1 as int) == #[trigger] all[k],
            forall|k: int|
                0 <= k < bss_pieces_from(v@, p as int).len() ==> #[trigger] bss_pieces_from(
                    v@,
                    p as int,
                )[k] == all[r@.len() + k],
        decreases v@.len() - p,
    {
        proof {
            lemma_next_bss(v@, p as int);
        }
        let mut e: usize = p;
        while e < v.len() && !(v.len() - e >= 4 && v[e] == 'B' && v[e + 1] == 'S' && v[e + 2] == 'S'
            && v[e + 3] == ' ')
            invariant
                p <= e <= next_bss(v@, p as int),
                next_bss(v@, p as int) <= v@.len(),
                forall|j: int| p <= j < next_bss(v@, p as int) ==> !bss_at(v@, j),
                next_bss(v@, p as int) < v@.len() ==> bss_at(v@, next_bss(v@, p as int)),
            decreases v@.len() - e,
        {
            e += 1;
        }
        let ghost rest = bss_pieces_from(v@, p as int);
        let ghost n: int = r@.len() as int;
        proof {
            assert(e >= v@.len() || bss_at(v@, e as int));
            assert(e == next_bss(v@, p as int));
            assert(rest[0] == all[n + 0]);
            if e >= v@.len() {
                assert(rest == seq![v@.subrange(p as int, v@.len() as int)]);
            } else {
                assert(rest == seq![v@.subrange(p as int, e as int)] + bss_pieces_from(v@, e + 4));
            }
            assert(rest[0] == v@.subrange(p as int, e as int));
        }
        r.push((p, e));
        proof {
            assert(r@[n] == (p, e));
            assert(r@[n].0 <= r@[n].1 <= v@.len());
        }
        if e == v.len() {
            proof {
                assert(rest.len() == 1);
            }
            return r;
        }
        proof {
            assert(rest == seq![v@.subrange(p as int, e as int)] + bss_pieces_from(v@, e + 4));
            assert forall|k: int| 0 <= k < bss_pieces_from(v@, e + 4).len() implies #[trigger] bss_pieces_from(
                v@,
                e + 4,
            )[k] == all[r@.len() + k] by {
                assert(rest[k + 1] == bss_pieces_from(v@, e + 4)[k]);
            }
        }
        p = e + 4;
    }
}

/// What aho-corasick's replacement makes of `text`: each match of `patterns[i]`
/// replaced by `replacements[i]`.
pub uninterp spec fn replaced_all(
    text: Seq<char>,
    patterns: Seq<Seq<char>>,
    replacements: Seq<Seq<char>>,
) -> Seq<char>;

/// The views of a list of string slices.
pub open spec fn str_views(s: Seq<&str>) -> Seq<Seq<char>> {
    s.map_values(|x: &str| x@)
}

/// Relies on aho-corasick's `AhoCorasick::new` and `AhoCorasick::replace_all`: the
/// text with each match replaced by the replacement at the pattern's index, which
/// depends on the arguments alone; it panics unless there are as many replacements as
/// patterns.
#[verifier::external_body]
fn replace_all(text: &str, patterns: &[&str], replacements: &[&str]) -> (r: String)
    requires
        patterns@.len() == replacements@.len(),
    ensures
        r@ == replaced_all(text@, str_views(patterns@), str_views(replacements@)),
{
    aho_corasick::AhoCorasick::new(patterns).replace_all(text, replacements)
}

/// Runs the `iw` scanning utility's output through the library.
pub struct Scanner;

impl Scanner {
    /// The observations read from the records of scan output whose inner `BSS` words
    /// were lowered; a record that does not parse is left out.
    pub fn records(lowered: &str) -> (r: Vec<Wifi>)
        ensures
            r@.len() == bss_records(lowered@).filter_map(|p: Seq<char>| record_fields(p)).len(),
            forall|i: int|
                0 <= i < r@.len() ==> holds_fields(
                    #[trigger] r@[i],
                    bss_records(lowered@).filter_map(|p: Seq<char>| record_fields(p))[i],
                ),
    {
        let v = chars_of(lowered);
        let b = bss_bounds(&v);
        let ghost recs = bss_records(v@);
        let ghost f = |p: Seq<char>| record_fields(p);
        let mut out: Vec<Wifi> = Vec::new();
        let mut k: usize = 1;
        proof {
            assert(recs.take(0) =~= Seq::<Seq<char>>::empty());
        }
        while k < b.len()
            invariant
                1 <= k <= b@.len(),
                b@.len() == bss_pieces_from(v@, 0).len(),
                v@ == lowered@,
                recs == bss_pieces_from(v@, 0).drop_first(),
                f == (|p: Seq<char>| record_fields(p)),
                forall|j: int| 0 <= j < b@.len() ==> #[trigger] b@[j].0 <= b@[j].1 <= v@.len(),
                forall|j: int|
                    0 <= j < b@.len() ==> v@.subrange(b@[j].0 as int, b@[j].1 as int)
                        == #[trigger] bss_pieces_from(v@, 0)[j],
                out@.len() == recs.take(k - 1).filter_map(f).len(),
                forall|i: int|
                    0 <= i < out@.len() ==> holds_fields(
                        #[trigger] out@[i],
                        recs.take(k - 1).filter_map(f)[i],
                    ),
            decreases b@.len() - k,
        {
            let (lo, hi) = b[k];
            proof {
                assert(b@[k as int].0 <= b@[k as int].1 <= v@.len());
                assert(recs[k - 1] == bss_pieces_from(v@, 0)[k as int]);
                recs.lemma_filter_map_take_succ(f, k - 1);
            }
            let piece = lowered.substring_char(lo, hi);
            match parse_record(piece) {
                Ok(w) => {
                    out.push(w);
                },
                Err(_) => {},
            }
            proof {
                let before = recs.take(k - 1).filter_map(f);
                assert forall|i: int| 0 <= i < out@.len() implies holds_fields(
                    #[trigger] out@[i],
                    recs.take(k as int).filter_map(f)[i],
                ) by {
                    if i < before.len() {
                        assert(recs.take(k as int).filter_map(f)[i] == before[i]);
                    }
                }
            }
            k += 1;
        }
        proof {
            if b@.len() >= 1 {
                assert(recs.take(b@.len() - 1) =~= recs);
            }
        }
        out
    }

    /// The observations in the output of `iw dev <interface> scan`: the text is cut at
    /// each `"BSS "` that starts a record, once the `BSS` words inside records are
    /// lowered, and each record is read; a record that does not parse is left out.
    pub fn parse_output(text: &str) -> (r: Vec<Wifi>)
        ensures
            r@.len() == bss_records(
                replaced_all(text@, seq!["\tBSS"@, " BSS "@], seq!["\tbss"@, " bss "@]),
            ).filter_map(|p: Seq<char>| record_fields(p)).len(),
            forall|i: int|
                0 <= i < r@.len() ==> holds_fields(
                    #[trigger] r@[i],
                    bss_records(
                        replaced_all(text@, seq!["\tBSS"@, " BSS "@], seq!["\tbss"@, " bss "@]),
                    ).filter_map(|p: Seq<char>| record_fields(p))[i],
                ),
    {
        let patterns: Vec<&str> = vec!["\tBSS", " BSS "];
        let replacements: Vec<&str> = vec!["\tbss", " bss "];
        proof {
            assert(str_views(patterns@) =~= seq!["\tBSS"@, " BSS "@]);
            assert(str_views(replacements@) =~= seq!["\tbss"@, " bss "@]);
        }
        let lowered = replace_all(text, patterns.as_slice(), replacements.as_slice());
        Scanner::records(lowered.as_str())
    }
}

} // verus!
