//! Calendar timestamps at one-second resolution.
//!
//! The archive service stamps every snapshot with a fixed-width
//! `YYYYMMDDHHMMSS` string, and the cache file records the same instant in an
//! ISO-style form.  This module holds the calendar model both codecs share:
//! a plain field-per-unit timestamp, its validity predicate, and its mapping
//! to an absolute count of seconds used for freshness arithmetic.

use crate::text::{char_digit, digit_char, digit_to_char, digit_val, is_digit};
use vstd::prelude::*;

verus! {

/// An absolute point in time (UTC, proleptic Gregorian calendar),
/// at one-second resolution.
#[derive(Clone, Copy, Debug, PartialEq, Eq, Structural)]
pub struct Timestamp {
    pub year: u16,
    pub month: u8,
    pub day: u8,
    pub hour: u8,
    pub minute: u8,
    pub second: u8,
}

/// Gregorian leap-year rule.
pub open spec fn is_leap_year(y: int) -> bool {
    (y % 4 == 0 && y % 100 != 0) || y % 400 == 0
}

/// Length of month `m` (1-based) in year `y`.
pub open spec fn spec_days_in_month(y: int, m: int) -> int {
    if m == 2 {
        if is_leap_year(y) {
            29
        } else {
            28
        }
    } else if m == 4 || m == 6 || m == 9 || m == 11 {
        30
    } else {
        31
    }
}

/// Days in the months of year `y` strictly before month `m`.
pub open spec fn spec_days_before_month(y: int, m: int) -> int
    decreases m,
{
    if m <= 1 {
        0
    } else {
        spec_days_before_month(y, m - 1) + spec_days_in_month(y, m - 1)
    }
}

/// Days in the years strictly before year `y` (year 1 is the first year).
pub open spec fn spec_days_before_year(y: int) -> int {
    365 * (y - 1) + (y - 1) / 4 - (y - 1) / 100 + (y - 1) / 400
}

impl Timestamp {
    /// Every field lies within its calendar range.
    pub open spec fn wf(self) -> bool {
        &&& 1 <= self.year <= 9999
        &&& 1 <= self.month <= 12
        &&& 1 <= self.day <= spec_days_in_month(self.year as int, self.month as int)
        &&& self.hour < 24
        &&& self.minute < 60
        &&& self.second < 60
    }

    /// The instant as a count of seconds from the start of year 1.
    pub open spec fn spec_seconds(self) -> int {
        (spec_days_before_year(self.year as int) + spec_days_before_month(
            self.year as int,
            self.month as int,
        ) + (self.day - 1)) * 86400 + self.hour * 3600 + self.minute * 60 + self.second
    }

    /// Whether month `m` of year `y` has at least `d` days, computed at run time.
    pub fn days_in_month(y: u16, m: u8) -> (n: u8)
        requires
            1 <= m <= 12,
        ensures
            n == spec_days_in_month(y as int, m as int),
    {
        if m == 2 {
            if (y % 4 == 0 && y % 100 != 0) || y % 400 == 0 {
                29
            } else {
                28
            }
        } else if m == 4 || m == 6 || m == 9 || m == 11 {
            30
        } else {
            31
        }
    }

    /// The instant as seconds from the start of year 1, computed at run time.
    pub fn epoch_seconds(&self) -> (s: u64)
        requires
            self.wf(),
        ensures
            s == self.spec_seconds(),
            s < 320000000000,
    {
        let y: u64 = self.year as u64;
        proof {
            lemma_div_bounds((y - 1) as int);
        }
        let mut days: u64 = 365 * (y - 1) + (y - 1) / 4 + (y - 1) / 400 - (y - 1) / 100;
        let mut m: u8 = 1;
        while m < self.month
            invariant
                1 <= m <= self.month <= 12,
                self.wf(),
                y == self.year,
                days == spec_days_before_year(y as int) + spec_days_before_month(
                    y as int,
                    m as int,
                ),
                days <= 3669266 + 31 * (m - 1),
            decreases self.month as int - m as int,
        {
            days = days + Timestamp::days_in_month(self.year, m) as u64;
            m = m + 1;
        }
        days = days + (self.day - 1) as u64;
        days * 86400 + (self.hour as u64) * 3600 + (self.minute as u64) * 60 + (self.second as u64)
    }
}

/// Powers of ten up to the field widths used by the codecs.
pub open spec fn pow10(w: nat) -> int {
    if w == 0 {
        1
    } else if w == 1 {
        10
    } else if w == 2 {
        100
    } else if w == 3 {
        1000
    } else {
        10000
    }
}

/// Every character of `s` is an ASCII decimal digit.
pub open spec fn all_digits(s: Seq<char>) -> bool {
    forall|i: int| 0 <= i < s.len() ==> is_digit(#[trigger] s[i])
}

/// The numeric value of a digit string (most significant digit first).
pub open spec fn spec_num(s: Seq<char>) -> int
    decreases s.len(),
{
    if s.len() == 0 {
        0
    } else {
        spec_num(s.drop_last()) * 10 + digit_val(s.last())
    }
}

/// `n` printed as exactly `w` decimal digits, zero padded.
pub open spec fn dig_seq(n: int, w: nat) -> Seq<char>
    decreases w,
{
    if w == 0 {
        Seq::empty()
    } else {
        dig_seq(n / 10, (w - 1) as nat).push(digit_char(n % 10))
    }
}

/// Printing `n` in `w` digits and reading the string back are inverses,
/// provided `n` fits in `w` digits.
pub proof fn lemma_dig_seq_num(n: int, w: nat)
    requires
        w <= 4,
        0 <= n < pow10(w),
    ensures
        dig_seq(n, w).len() == w,
        all_digits(dig_seq(n, w)),
        spec_num(dig_seq(n, w)) == n,
    decreases w,
{
    if w > 0 {
        vstd::arithmetic::div_mod::lemma_fundamental_div_mod(n, 10);
        lemma_dig_seq_num(n / 10, (w - 1) as nat);
        let s = dig_seq(n, w);
        assert(s.drop_last() =~= dig_seq(n / 10, (w - 1) as nat));
        assert(s.last() == digit_char(n % 10));
        assert(0 <= n % 10 <= 9);
        assert(digit_val(digit_char(n % 10)) == n % 10);
    }
}

/// Reads the value of the digit run `v[start .. start + len]`.
pub fn read_num(v: &Vec<char>, start: usize, len: usize) -> (n: u32)
    requires
        start + len <= v@.len(),
        len <= 4,
        all_digits(v@.subrange(start as int, (start + len) as int)),
    ensures
        n == spec_num(v@.subrange(start as int, (start + len) as int)),
        n < pow10(len as nat),
{
    let total: usize = v.len();
    let mut n: u32 = 0;
    let mut i: usize = 0;
    while i < len
        invariant
            start + len <= total == v@.len(),
            len <= 4,
            i <= len,
            all_digits(v@.subrange(start as int, (start + len) as int)),
            n == spec_num(v@.subrange(start as int, (start + i) as int)),
            n < pow10(i as nat),
        decreases len - i,
    {
        let c = v[start + i];
        proof {
            assert(v@.subrange(start as int, (start + len) as int)[i as int] == v@[start + i]);
        }
        let d = char_digit(c).unwrap();
        n = n * 10 + d as u32;
        i = i + 1;
        proof {
            let s1 = v@.subrange(start as int, (start + i) as int);
            assert(s1.drop_last() =~= v@.subrange(start as int, (start + i - 1) as int));
            assert(s1.last() == v@[start + i - 1]);
        }
    }
    proof {
        assert(v@.subrange(start as int, (start + i) as int) =~= v@.subrange(
            start as int,
            (start + len) as int,
        ));
    }
    n
}

/// Run-time test that `v[start .. start + len]` holds only digits.
pub fn digits_in(v: &Vec<char>, start: usize, len: usize) -> (r: bool)
    requires
        start + len <= v@.len(),
    ensures
        r == all_digits(v@.subrange(start as int, (start + len) as int)),
{
    let total: usize = v.len();
    let mut i: usize = 0;
    while i < len
        invariant
            start + len <= total == v@.len(),
            i <= len,
            forall|j: int| 0 <= j < i ==> is_digit(#[trigger] v@.subrange(
                start as int,
                (start + len) as int,
            )[j]),
        decreases len - i,
    {
        proof {
            assert(v@.subrange(start as int, (start + len) as int)[i as int] == v@[start + i]);
        }
        if char_digit(v[start + i]).is_none() {
            return false;
        }
        i = i + 1;
    }
    true
}

/// Appends `n` as two zero-padded decimal digits.
pub fn push_dig2(s: &mut String, n: u8)
    requires
        n <= 99,
    ensures
        final(s)@ == old(s)@ + dig_seq(n as int, 2),
{
    let ghost start = s@;
    let q1: u8 = n / 10;
    s.push(digit_to_char(q1 % 10));
    s.push(digit_to_char(n % 10));
    proof {
        assert(dig_seq(n as int, 2) == dig_seq(n as int / 10, 1).push(digit_char(n as int % 10)));
        assert(dig_seq(n as int / 10, 1) == dig_seq(n as int / 10 / 10, 0).push(
            digit_char(n as int / 10 % 10),
        ));
        assert(s@ =~= start + dig_seq(n as int, 2));
    }
}

/// Appends `n` as four zero-padded decimal digits.
pub fn push_dig4(s: &mut String, n: u16)
    requires
        n <= 9999,
    ensures
        final(s)@ == old(s)@ + dig_seq(n as int, 4),
{
    let ghost start = s@;
    let q1: u16 = n / 10;
    let q2: u16 = q1 / 10;
    let q3: u16 = q2 / 10;
    s.push(digit_to_char((q3 % 10) as u8));
    s.push(digit_to_char((q2 % 10) as u8));
    s.push(digit_to_char((q1 % 10) as u8));
    s.push(digit_to_char((n % 10) as u8));
    proof {
        let ni = n as int;
        assert(dig_seq(ni, 4) == dig_seq(ni / 10, 3).push(digit_char(ni % 10)));
        assert(dig_seq(ni / 10, 3) == dig_seq(ni / 10 / 10, 2).push(digit_char(ni / 10 % 10)));
        assert(dig_seq(ni / 10 / 10, 2) == dig_seq(ni / 10 / 10 / 10, 1).push(
            digit_char(ni / 10 / 10 % 10),
        ));
        assert(dig_seq(ni / 10 / 10 / 10, 1) == dig_seq(ni / 10 / 10 / 10 / 10, 0).push(
            digit_char(ni / 10 / 10 / 10 % 10),
        ));
        assert(ni / 10 / 10 / 10 / 10 == 0);
        assert(s@ =~= start + dig_seq(ni, 4));
    }
}

/// The fixed-width `YYYYMMDDHHMMSS` form used by the archive service.
pub open spec fn spec_compact(t: Timestamp) -> Seq<char> {
    dig_seq(t.year as int, 4) + dig_seq(t.month as int, 2) + dig_seq(t.day as int, 2) + dig_seq(
        t.hour as int,
        2,
    ) + dig_seq(t.minute as int, 2) + dig_seq(t.second as int, 2)
}

/// The `YYYY-MM-DDTHH:MM:SS` form used by the cache file.
pub open spec fn spec_iso(t: Timestamp) -> Seq<char> {
    dig_seq(t.year as int, 4) + seq!['-'] + dig_seq(t.month as int, 2) + seq!['-'] + dig_seq(
        t.day as int,
        2,
    ) + seq!['T'] + dig_seq(t.hour as int, 2) + seq![':'] + dig_seq(t.minute as int, 2)
        + seq![':'] + dig_seq(t.second as int, 2)
}

/// Decoding of the fixed-width service form: fourteen digits making a valid
/// calendar instant, and nothing else.
pub open spec fn spec_parse_compact(s: Seq<char>) -> Option<Timestamp> {
    if s.len() == 14 && all_digits(s) {
        let y = spec_num(s.subrange(0, 4));
        let mo = spec_num(s.subrange(4, 6));
        let d = spec_num(s.subrange(6, 8));
        let h = spec_num(s.subrange(8, 10));
        let mi = spec_num(s.subrange(10, 12));
        let sec = spec_num(s.subrange(12, 14));
        if 1 <= y <= 9999 && 1 <= mo <= 12 && 1 <= d <= spec_days_in_month(y, mo) && h < 24 && mi
            < 60 && sec < 60 {
            Some(
                Timestamp {
                    year: y as u16,
                    month: mo as u8,
                    day: d as u8,
                    hour: h as u8,
                    minute: mi as u8,
                    second: sec as u8,
                },
            )
        } else {
            None
        }
    } else {
        None
    }
}

/// Decoding of the cache-file form: `YYYY-MM-DDTHH:MM:SS`, fields valid.
pub open spec fn spec_parse_iso(s: Seq<char>) -> Option<Timestamp> {
    if s.len() == 19 && s[4] == '-' && s[7] == '-' && s[10] == 'T' && s[13] == ':' && s[16] == ':'
        && all_digits(s.subrange(0, 4)) && all_digits(s.subrange(5, 7)) && all_digits(
        s.subrange(8, 10),
    ) && all_digits(s.subrange(11, 13)) && all_digits(s.subrange(14, 16)) && all_digits(
        s.subrange(17, 19),
    ) {
        let y = spec_num(s.subrange(0, 4));
        let mo = spec_num(s.subrange(5, 7));
        let d = spec_num(s.subrange(8, 10));
        let h = spec_num(s.subrange(11, 13));
        let mi = spec_num(s.subrange(14, 16));
        let sec = spec_num(s.subrange(17, 19));
        if 1 <= y <= 9999 && 1 <= mo <= 12 && 1 <= d <= spec_days_in_month(y, mo) && h < 24 && mi
            < 60 && sec < 60 {
            Some(
                Timestamp {
                    year: y as u16,
                    month: mo as u8,
                    day: d as u8,
                    hour: h as u8,
                    minute: mi as u8,
                    second: sec as u8,
                },
            )
        } else {
            None
        }
    } else {
        None
    }
}

impl Timestamp {
    /// Renders the service's fixed-width form.
    pub fn format_compact(&self) -> (s: String)
        requires
            self.wf(),
        ensures
            s@ == spec_compact(*self),
    {
        let mut s = String::new();
        push_dig4(&mut s, self.year);
        push_dig2(&mut s, self.month);
        push_dig2(&mut s, self.day);
        push_dig2(&mut s, self.hour);
        push_dig2(&mut s, self.minute);
        push_dig2(&mut s, self.second);
        proof {
            assert(s@ =~= spec_compact(*self));
        }
        s
    }

    /// Appends the cache-file form to `out`.
    pub fn push_iso(&self, out: &mut String)
        requires
            self.wf(),
        ensures
            final(out)@ == old(out)@ + spec_iso(*self),
    {
        let ghost start = out@;
        push_dig4(out, self.year);
        out.push('-');
        push_dig2(out, self.month);
        out.push('-');
        push_dig2(out, self.day);
        out.push('T');
        push_dig2(out, self.hour);
        out.push(':');
        push_dig2(out, self.minute);
        out.push(':');
        push_dig2(out, self.second);
        proof {
            assert(out@ =~= start + spec_iso(*self));
        }
    }

    /// Decodes the fixed-width service form.
    pub fn parse_compact(v: &Vec<char>) -> (r: Option<Timestamp>)
        ensures
            r == spec_parse_compact(v@),
            r matches Some(t) ==> t.wf(),
    {
        if v.len() != 14 {
            return None;
        }
        if !digits_in(v, 0, 14) {
            proof {
                assert(v@.subrange(0, 14) =~= v@);
            }
            return None;
        }
        proof {
            assert(v@.subrange(0, 14) =~= v@);
            assert(all_digits(v@.subrange(0, 4)));
            assert(all_digits(v@.subrange(4, 6)));
            assert(all_digits(v@.subrange(6, 8)));
            assert(all_digits(v@.subrange(8, 10)));
            assert(all_digits(v@.subrange(10, 12)));
            assert(all_digits(v@.subrange(12, 14)));
        }
        let y = read_num(v, 0, 4);
        let mo = read_num(v, 4, 2);
        let d = read_num(v, 6, 2);
        let h = read_num(v, 8, 2);
        let mi = read_num(v, 10, 2);
        let sec = read_num(v, 12, 2);
        if 1 <= y && y <= 9999 && 1 <= mo && mo <= 12 && 1 <= d && h < 24 && mi < 60 && sec < 60 {
            if d <= Timestamp::days_in_month(y as u16, mo as u8) as u32 {
                return Some(
                    Timestamp {
                        year: y as u16,
                        month: mo as u8,
                        day: d as u8,
                        hour: h as u8,
                        minute: mi as u8,
                        second: sec as u8,
                    },
                );
            }
        }
        None
    }

    /// Decodes the cache-file form.
    pub fn parse_iso(v: &Vec<char>) -> (r: Option<Timestamp>)
        ensures
            r == spec_parse_iso(v@),
            r matches Some(t) ==> t.wf(),
    {
        if v.len() != 19 {
            return None;
        }
        if !(v[4] == '-' && v[7] == '-' && v[10] == 'T' && v[13] == ':' && v[16] == ':') {
            return None;
        }
        if !(digits_in(v, 0, 4) && digits_in(v, 5, 2) && digits_in(v, 8, 2) && digits_in(v, 11, 2)
            && digits_in(v, 14, 2) && digits_in(v, 17, 2)) {
            return None;
        }
        let y = read_num(v, 0, 4);
        let mo = read_num(v, 5, 2);
        let d = read_num(v, 8, 2);
        let h = read_num(v, 11, 2);
        let mi = read_num(v, 14, 2);
        let sec = read_num(v, 17, 2);
        if 1 <= y && y <= 9999 && 1 <= mo && mo <= 12 && 1 <= d && h < 24 && mi < 60 && sec < 60 {
            if d <= Timestamp::days_in_month(y as u16, mo as u8) as u32 {
                return Some(
                    Timestamp {
                        year: y as u16,
                        month: mo as u8,
                        day: d as u8,
                        hour: h as u8,
                        minute: mi as u8,
                        second: sec as u8,
                    },
                );
            }
        }
        None
    }
}

/// Rendering a well-formed timestamp in the service form and decoding it
/// again yields the same instant.
pub proof fn lemma_compact_round_trip(t: Timestamp)
    requires
        t.wf(),
    ensures
        spec_parse_compact(spec_compact(t)) == Some(t),
{
    let s = spec_compact(t);
    lemma_dig_seq_num(t.year as int, 4);
    lemma_dig_seq_num(t.month as int, 2);
    lemma_dig_seq_num(t.day as int, 2);
    lemma_dig_seq_num(t.hour as int, 2);
    lemma_dig_seq_num(t.minute as int, 2);
    lemma_dig_seq_num(t.second as int, 2);
    assert(s.subrange(0, 4) =~= dig_seq(t.year as int, 4));
    assert(s.subrange(4, 6) =~= dig_seq(t.month as int, 2));
    assert(s.subrange(6, 8) =~= dig_seq(t.day as int, 2));
    assert(s.subrange(8, 10) =~= dig_seq(t.hour as int, 2));
    assert(s.subrange(10, 12) =~= dig_seq(t.minute as int, 2));
    assert(s.subrange(12, 14) =~= dig_seq(t.second as int, 2));
}

/// Rendering a well-formed timestamp in the cache-file form and decoding it
/// again yields the same instant.
pub proof fn lemma_iso_round_trip(t: Timestamp)
    requires
        t.wf(),
    ensures
        spec_parse_iso(spec_iso(t)) == Some(t),
{
    let s = spec_iso(t);
    lemma_dig_seq_num(t.year as int, 4);
    lemma_dig_seq_num(t.month as int, 2);
    lemma_dig_seq_num(t.day as int, 2);
    lemma_dig_seq_num(t.hour as int, 2);
    lemma_dig_seq_num(t.minute as int, 2);
    lemma_dig_seq_num(t.second as int, 2);
    assert(s.subrange(0, 4) =~= dig_seq(t.year as int, 4));
    assert(s.subrange(5, 7) =~= dig_seq(t.month as int, 2));
    assert(s.subrange(8, 10) =~= dig_seq(t.day as int, 2));
    assert(s.subrange(11, 13) =~= dig_seq(t.hour as int, 2));
    assert(s.subrange(14, 16) =~= dig_seq(t.minute as int, 2));
    assert(s.subrange(17, 19) =~= dig_seq(t.second as int, 2));
}

/// The cache-file form is always exactly nineteen characters.
pub proof fn lemma_iso_len(t: Timestamp)
    requires
        t.wf(),
    ensures
        spec_iso(t).len() == 19,
{
    lemma_dig_seq_num(t.year as int, 4);
    lemma_dig_seq_num(t.month as int, 2);
    lemma_dig_seq_num(t.day as int, 2);
    lemma_dig_seq_num(t.hour as int, 2);
    lemma_dig_seq_num(t.minute as int, 2);
    lemma_dig_seq_num(t.second as int, 2);
}

/// `ts` lies within `days` days before `now` (or is not yet past).
pub open spec fn spec_within_days(ts: Timestamp, now: Timestamp, days: int) -> bool {
    now.spec_seconds() < ts.spec_seconds() + days * 86400
}

/// Run-time freshness test: is `ts` younger than `days` days, seen from `now`?
pub fn within_days(ts: &Timestamp, now: &Timestamp, days: u64) -> (r: bool)
    requires
        ts.wf(),
        now.wf(),
        days <= 1000,
    ensures
        r == spec_within_days(*ts, *now, days as int),
{
    let t = ts.epoch_seconds();
    let n = now.epoch_seconds();
    n < t + days * 86400
}

/// For nonnegative `x`, each quotient by a positive constant is at most `x`,
/// and quotients shrink as the divisor grows.
proof fn lemma_div_bounds(x: int)
    requires
        0 <= x,
    ensures
        x / 4 <= x,
        x / 100 <= x / 4,
        x / 400 <= x,
{
    vstd::arithmetic::div_mod::lemma_div_is_ordered_by_denominator(x, 4, 100);
    vstd::arithmetic::div_mod::lemma_div_nonincreasing(x, 4);
    vstd::arithmetic::div_mod::lemma_div_nonincreasing(x, 400);
}

} // verus!
