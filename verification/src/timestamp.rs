//! The custom timestamp format of the source files,
//! `YYYY-MM-DD HH:MM:SS` with an optional fraction of `.` and one to nine
//! decimal digits, parsed against an exact proleptic-Gregorian calendar
//! model, and the signed millisecond interval between two timestamps.
//!
//! The grammar is deliberately narrower than a general clock format in one
//! point: the seconds field runs `00` to `59`, so the leap-second notation
//! `60` is rejected rather than given an instant on the linear scale.

use vstd::prelude::*;

verus! {

use vstd::arithmetic::div_mod::{lemma_fundamental_div_mod, lemma_fundamental_div_mod_converse_div};
use vstd::string::StrSliceExecFns;
use crate::numeric::{all_dec_digits, dec_val, is_dec_digit};

/// Powers of ten.
pub open spec fn pow10(n: nat) -> int
    decreases n,
{
    if n == 0 {
        1
    } else {
        10 * pow10((n - 1) as nat)
    }
}

proof fn lemma_pow10_values()
    ensures
        pow10(0) == 1,
        pow10(1) == 10,
        pow10(2) == 100,
        pow10(3) == 1000,
        pow10(4) == 10000,
        pow10(6) == 1000000,
        pow10(8) == 100000000,
        pow10(9) == 1000000000,
{
    reveal_with_fuel(pow10, 11);
}

proof fn lemma_pow10_positive(n: nat)
    ensures
        pow10(n) >= 1,
    decreases n,
{
    if n > 0 {
        lemma_pow10_positive((n - 1) as nat);
    }
}

proof fn lemma_pow10_mono(a: nat, b: nat)
    requires
        a <= b,
    ensures
        pow10(a) <= pow10(b),
    decreases b,
{
    if a < b {
        lemma_pow10_mono(a, (b - 1) as nat);
        lemma_pow10_positive((b - 1) as nat);
    }
}

proof fn lemma_pow10_adds(a: nat, b: nat)
    ensures
        pow10(a + b) == pow10(a) * pow10(b),
    decreases a,
{
    if a == 0 {
    } else {
        lemma_pow10_adds((a - 1) as nat, b);
        assert(pow10(a + b) == 10 * pow10((a - 1) as nat + b));
        assert(10 * (pow10((a - 1) as nat) * pow10(b)) == (10 * pow10((a - 1) as nat)) * pow10(b))
            by (nonlinear_arith);
    }
}

/// A string of decimal digits is bounded by ten to its length.
proof fn lemma_dec_val_bound(s: Seq<char>)
    requires
        all_dec_digits(s),
    ensures
        0 <= dec_val(s) < pow10(s.len()),
    decreases s.len(),
{
    if s.len() == 0 {
    } else {
        lemma_dec_val_bound(s.drop_last());
        assert(is_dec_digit(s.last()));
        assert(dec_val(s.drop_last()) * 10 <= (pow10((s.len() - 1) as nat) - 1) * 10)
            by (nonlinear_arith)
            requires
                dec_val(s.drop_last()) <= pow10((s.len() - 1) as nat) - 1,
        ;
    }
}

/// Whether a year of the proleptic Gregorian calendar is a leap year.
pub open spec fn is_leap_year(y: int) -> bool {
    y % 4 == 0 && (y % 100 != 0 || y % 400 == 0)
}

/// Days in one month of a given year; months are numbered from 1.
pub open spec fn days_in_month(y: int, m: int) -> int {
    if m == 2 {
        if is_leap_year(y) {
            29
        } else {
            28
        }
    } else if m == 4 || m == 6 || m == 9 || m == 11 {
        30
    } else {
        31
    }
}

/// Days in all years before year `y`, counting from year 0.
pub open spec fn days_before_year(y: int) -> int
    decreases y,
{
    if y <= 0 {
        0
    } else {
        days_before_year(y - 1) + if is_leap_year(y - 1) {
            366int
        } else {
            365int
        }
    }
}

/// Days in all months of year `y` before month `m`.
pub open spec fn days_before_month(y: int, m: int) -> int
    decreases m,
{
    if m <= 1 {
        0
    } else {
        days_before_month(y, m - 1) + days_in_month(y, m - 1)
    }
}

/// Day number of a calendar date, counting day 1 of month 1 of year 0 as 0.
pub open spec fn day_number(y: int, m: int, d: int) -> int {
    days_before_year(y) + days_before_month(y, m) + d - 1
}

/// Year field of a timestamp string.
pub open spec fn ts_year(s: Seq<char>) -> int {
    dec_val(s.subrange(0, 4))
}

/// Month field of a timestamp string.
pub open spec fn ts_month(s: Seq<char>) -> int {
    dec_val(s.subrange(5, 7))
}

/// Day field of a timestamp string.
pub open spec fn ts_day(s: Seq<char>) -> int {
    dec_val(s.subrange(8, 10))
}

/// Hour field of a timestamp string.
pub open spec fn ts_hour(s: Seq<char>) -> int {
    dec_val(s.subrange(11, 13))
}

/// Minute field of a timestamp string.
pub open spec fn ts_minute(s: Seq<char>) -> int {
    dec_val(s.subrange(14, 16))
}

/// Second field of a timestamp string.
pub open spec fn ts_second(s: Seq<char>) -> int {
    dec_val(s.subrange(17, 19))
}

/// Nanoseconds encoded by the optional fraction: its digits are scaled to
/// nine places.
pub open spec fn ts_frac_ns(s: Seq<char>) -> int {
    if s.len() == 19 {
        0
    } else {
        dec_val(s.skip(20)) * pow10((9 - (s.len() - 20)) as nat)
    }
}

/// Whether a string has the lexical shape of a timestamp: six fixed-width
/// decimal fields with the fixed separators, then either nothing or a dot
/// and one to nine fraction digits.
pub open spec fn timestamp_shape(s: Seq<char>) -> bool {
    &&& (s.len() == 19 || 21 <= s.len() <= 29)
    &&& all_dec_digits(s.subrange(0, 4))
    &&& all_dec_digits(s.subrange(5, 7))
    &&& all_dec_digits(s.subrange(8, 10))
    &&& all_dec_digits(s.subrange(11, 13))
    &&& all_dec_digits(s.subrange(14, 16))
    &&& all_dec_digits(s.subrange(17, 19))
    &&& s[4] == '-'
    &&& s[7] == '-'
    &&& s[10] == ' '
    &&& s[13] == ':'
    &&& s[16] == ':'
    &&& (s.len() > 19 ==> s[19] == '.' && all_dec_digits(s.skip(20)))
}

/// Whether the fields of a shaped timestamp string denote a calendar date
/// and a time of day. Seconds run 0 to 59: the leap-second notation 60 has
/// no place on the linear nanosecond scale and is not accepted.
pub open spec fn timestamp_fields_valid(s: Seq<char>) -> bool {
    &&& 1 <= ts_month(s) <= 12
    &&& 1 <= ts_day(s) <= days_in_month(ts_year(s), ts_month(s))
    &&& ts_hour(s) <= 23
    &&& ts_minute(s) <= 59
    &&& ts_second(s) <= 59
}

/// Whether a string is a well-formed timestamp.
pub open spec fn valid_timestamp(s: Seq<char>) -> bool {
    timestamp_shape(s) && timestamp_fields_valid(s)
}

/// Nanoseconds denoted by a timestamp string, counted from the start of
/// year 0.
pub open spec fn timestamp_ns(s: Seq<char>) -> int {
    (day_number(ts_year(s), ts_month(s), ts_day(s)) * 86400 + ts_hour(s) * 3600 + ts_minute(s) * 60
        + ts_second(s)) * 1000000000 + ts_frac_ns(s)
}

/// A parsed timestamp: whole milliseconds from the start of year 0 plus the
/// sub-millisecond remainder in nanoseconds.
#[derive(Clone, Copy, Debug, PartialEq, Eq, Structural)]
pub struct Timestamp {
    pub total_ms: i64,
    pub ns_rem: u32,
}

impl Timestamp {
    /// Well-formedness: the remainder is below one millisecond and the
    /// millisecond count is within the range any four-digit year can reach.
    pub open spec fn wf(&self) -> bool {
        0 <= self.total_ms <= 400_000_000_000_000 && self.ns_rem < 1_000_000
    }

    /// The instant as nanoseconds from the start of year 0.
    pub open spec fn total_ns(&self) -> int {
        self.total_ms * 1_000_000 + self.ns_rem
    }
}

/// Truncation toward zero of a nanosecond interval to whole milliseconds.
pub open spec fn ns_to_ms_trunc(ns: int) -> int {
    if ns >= 0 {
        ns / 1000000
    } else {
        -((-ns) / 1000000)
    }
}

/// Reads `width` decimal digits of `s` beginning at `start`.
fn read_fixed(s: &str, start: usize, width: usize) -> (r: Option<u32>)
    requires
        start + width <= s@.len(),
        start + width <= usize::MAX,
        width <= 9,
    ensures
        r matches Some(v) ==> {
            &&& all_dec_digits(s@.subrange(start as int, start + width))
            &&& v == dec_val(s@.subrange(start as int, start + width))
        },
        r is None ==> !all_dec_digits(s@.subrange(start as int, start + width)),
{
    let ghost sub = s@.subrange(start as int, start + width);
    let mut acc: u32 = 0;
    let mut i: usize = 0;
    while i < width
        invariant
            i <= width <= 9,
            start + width <= s@.len(),
            start + width <= usize::MAX,
            sub == s@.subrange(start as int, start + width),
            all_dec_digits(sub.take(i as int)),
            acc == dec_val(sub.take(i as int)),
            acc < pow10(i as nat),
        decreases width - i,
    {
        let c = s.get_char(start + i);
        proof {
            assert(sub[i as int] == s@[start + i]);
            assert(sub.take(i + 1).drop_last() =~= sub.take(i as int));
            assert(sub.take(i + 1).last() == sub[i as int]);
        }
        match crate::numeric::dec_digit(c) {
            None => {
                proof {
                    assert(!is_dec_digit(sub[i as int]));
                }
                return None;
            },
            Some(d) => {
                proof {
                    lemma_pow10_mono(i as nat, 8);
                    lemma_pow10_values();
                }
                acc = acc * 10 + (d as u32);
                proof {
                    lemma_dec_val_bound(sub.take(i + 1));
                }
            },
        }
        i = i + 1;
    }
    proof {
        assert(sub.take(width as int) =~= sub);
    }
    Some(acc)
}

/// Whether a year is a leap year.
pub fn is_leap_year_exec(y: u32) -> (r: bool)
    ensures
        r == is_leap_year(y as int),
{
    y % 4 == 0 && (y % 100 != 0 || y % 400 == 0)
}

/// Days in one month of a given year.
pub fn days_in_month_exec(y: u32, m: u32) -> (r: u32)
    requires
        1 <= m <= 12,
    ensures
        r == days_in_month(y as int, m as int),
        28 <= r <= 31,
{
    if m == 2 {
        if is_leap_year_exec(y) {
            29
        } else {
            28
        }
    } else if m == 4 || m == 6 || m == 9 || m == 11 {
        30
    } else {
        31
    }
}

/// Day number of a calendar date, counting day 1 of month 1 of year 0 as 0.
fn day_number_exec(y: u32, m: u32, d: u32) -> (r: u64)
    requires
        y <= 9999,
        1 <= m <= 12,
        1 <= d,
        d as int <= days_in_month(y as int, m as int),
    ensures
        r == day_number(y as int, m as int, d as int),
        r <= 3_700_000,
{
    let mut acc: u64 = 0;
    let mut i: u32 = 0;
    while i < y
        invariant
            i <= y <= 9999,
            acc == days_before_year(i as int),
            acc <= 366 * i,
        decreases y - i,
    {
        if is_leap_year_exec(i) {
            acc = acc + 366;
        } else {
            acc = acc + 365;
        }
        i = i + 1;
    }
    let mut j: u32 = 1;
    while j < m
        invariant
            1 <= j <= m <= 12,
            y <= 9999,
            acc == days_before_year(y as int) + days_before_month(y as int, j as int),
            acc <= 366 * y + 31 * (j - 1),
        decreases m - j,
    {
        acc = acc + days_in_month_exec(y, j) as u64;
        j = j + 1;
    }
    acc + (d - 1) as u64
}

/// Ten to the power `e`.
fn pow10_exec(e: usize) -> (r: u32)
    requires
        e <= 9,
    ensures
        r == pow10(e as nat),
{
    proof {
        lemma_pow10_values();
    }
    let mut acc: u32 = 1;
    let mut i: usize = 0;
    while i < e
        invariant
            i <= e <= 9,
            acc == pow10(i as nat),
        decreases e - i,
    {
        proof {
            lemma_pow10_mono(i as nat, 8);
            lemma_pow10_values();
        }
        acc = acc * 10;
        i = i + 1;
    }
    acc
}

/// Parses a timestamp string. Returns the parsed instant exactly when the
/// string is a well-formed timestamp.
pub fn parse_timestamp(s: &str) -> (r: Option<Timestamp>)
    ensures
        r matches Some(t) ==> valid_timestamp(s@) && t.wf() && t.total_ns() == timestamp_ns(s@),
        r is None ==> !valid_timestamp(s@),
{
    let n = s.unicode_len();
    if !(n == 19 || (21 <= n && n <= 29)) {
        return None;
    }
    if s.get_char(4) != '-' || s.get_char(7) != '-' || s.get_char(10) != ' ' || s.get_char(13)
        != ':' || s.get_char(16) != ':' {
        return None;
    }
    if n > 19 && s.get_char(19) != '.' {
        return None;
    }
    let year = match read_fixed(s, 0, 4) {
        Some(v) => v,
        None => {
            return None;
        },
    };
    let month = match read_fixed(s, 5, 2) {
        Some(v) => v,
        None => {
            return None;
        },
    };
    let day = match read_fixed(s, 8, 2) {
        Some(v) => v,
        None => {
            return None;
        },
    };
    let hour = match read_fixed(s, 11, 2) {
        Some(v) => v,
        None => {
            return None;
        },
    };
    let minute = match read_fixed(s, 14, 2) {
        Some(v) => v,
        None => {
            return None;
        },
    };
    let second = match read_fixed(s, 17, 2) {
        Some(v) => v,
        None => {
            return None;
        },
    };
    proof {
        lemma_pow10_values();
        lemma_dec_val_bound(s@.subrange(0, 4));
        lemma_dec_val_bound(s@.subrange(5, 7));
        lemma_dec_val_bound(s@.subrange(8, 10));
        lemma_dec_val_bound(s@.subrange(11, 13));
        lemma_dec_val_bound(s@.subrange(14, 16));
        lemma_dec_val_bound(s@.subrange(17, 19));
    }
    if month < 1 || month > 12 {
        return None;
    }
    let dim = days_in_month_exec(year, month);
    if day < 1 || day > dim {
        return None;
    }
    if hour > 23 || minute > 59 || second > 59 {
        return None;
    }
    let frac_ns: u64 = if n == 19 {
        0
    } else {
        let width = n - 20;
        let v = match read_fixed(s, 20, width) {
            Some(v) => v,
            None => {
                proof {
                    assert(s@.subrange(20, s@.len() as int) =~= s@.skip(20));
                }
                return None;
            },
        };
        proof {
            assert(s@.subrange(20, s@.len() as int) =~= s@.skip(20));
            lemma_dec_val_bound(s@.skip(20));
            lemma_pow10_adds((width) as nat, (9 - width) as nat);
            assert(dec_val(s@.skip(20)) * pow10((9 - width) as nat) <= (pow10(width as nat) - 1)
                * pow10((9 - width) as nat)) by (nonlinear_arith)
                requires
                    dec_val(s@.skip(20)) <= pow10(width as nat) - 1,
                    pow10((9 - width) as nat) >= 0,
            ;
            assert((pow10(width as nat) - 1) * pow10((9 - width) as nat) == pow10(width as nat)
                * pow10((9 - width) as nat) - pow10((9 - width) as nat)) by (nonlinear_arith);
            lemma_pow10_positive((9 - width) as nat);
        }
        let mult = pow10_exec(9 - width);
        (v as u64) * (mult as u64)
    };
    proof {
        assert(frac_ns == ts_frac_ns(s@));
        assert(frac_ns < 1000000000);
    }
    let days = day_number_exec(year, month, day);
    let secs: u64 = days * 86400 + (hour as u64) * 3600 + (minute as u64) * 60 + (second as u64);
    let total_ms: u64 = secs * 1000 + frac_ns / 1000000;
    let ns_rem: u32 = (frac_ns % 1000000) as u32;
    let t = Timestamp { total_ms: total_ms as i64, ns_rem };
    proof {
        lemma_fundamental_div_mod(frac_ns as int, 1000000);
        assert(t.total_ns() == timestamp_ns(s@));
    }
    Some(t)
}

/// The signed interval `end - start`, truncated toward zero to whole
/// milliseconds.
pub fn duration_ms(end: &Timestamp, start: &Timestamp) -> (r: i64)
    requires
        end.wf(),
        start.wf(),
    ensures
        r == ns_to_ms_trunc(end.total_ns() - start.total_ns()),
{
    let dm: i64 = end.total_ms - start.total_ms;
    let dr: i64 = end.ns_rem as i64 - start.ns_rem as i64;
    let ghost total = end.total_ns() - start.total_ns();
    proof {
        assert(total == dm * 1000000 + dr);
    }
    if dm > 0 && dr < 0 {
        proof {
            assert(total == (dm - 1) * 1000000 + (1000000 + dr)) by (nonlinear_arith)
                requires
                    total == dm * 1000000 + dr,
            ;
            lemma_fundamental_div_mod_converse_div(total, 1000000, dm - 1, 1000000 + dr);
        }
        dm - 1
    } else if dm < 0 && dr > 0 {
        proof {
            assert(-total == (-dm - 1) * 1000000 + (1000000 - dr)) by (nonlinear_arith)
                requires
                    total == dm * 1000000 + dr,
            ;
            lemma_fundamental_div_mod_converse_div(-total, 1000000, -dm - 1, 1000000 - dr);
        }
        dm + 1
    } else {
        proof {
            if dm >= 0 && dr >= 0 {
                lemma_fundamental_div_mod_converse_div(total, 1000000, dm as int, dr as int);
            } else {
                assert(-total == (-dm) * 1000000 + (-dr)) by (nonlinear_arith)
                    requires
                        total == dm * 1000000 + dr,
                ;
                lemma_fundamental_div_mod_converse_div(-total, 1000000, -dm, -dr);
            }
        }
        dm
    }
}

} // verus!
