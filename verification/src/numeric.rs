//! Verified parsing of the string-typed numeric fields of the source format:
//! unsigned and signed decimal integers and the binary-digit bitfield of the
//! TCP flags. Each parser's grammar and value are pinned by spec functions.

use vstd::prelude::*;

verus! {

use vstd::string::StrSliceExecFns;

/// Whether `c` is an ASCII decimal digit.
pub open spec fn is_dec_digit(c: char) -> bool {
    48 <= c as u32 <= 57
}

/// Numeric value of an ASCII decimal digit.
pub open spec fn digit_val(c: char) -> int {
    c as u32 - 48
}

/// Whether every character of `s` is an ASCII decimal digit.
pub open spec fn all_dec_digits(s: Seq<char>) -> bool {
    forall|i: int| 0 <= i < s.len() ==> is_dec_digit(s[i])
}

/// Value of a sequence of decimal digits, most significant first.
pub open spec fn dec_val(s: Seq<char>) -> int
    decreases s.len(),
{
    if s.len() == 0 {
        0
    } else {
        dec_val(s.drop_last()) * 10 + digit_val(s.last())
    }
}

/// Whether `c` is a binary digit.
pub open spec fn is_bin_digit(c: char) -> bool {
    c == '0' || c == '1'
}

/// Whether every character of `s` is a binary digit.
pub open spec fn all_bin_digits(s: Seq<char>) -> bool {
    forall|i: int| 0 <= i < s.len() ==> is_bin_digit(s[i])
}

/// Value of a sequence of binary digits, most significant first.
pub open spec fn bin_val(s: Seq<char>) -> int
    decreases s.len(),
{
    if s.len() == 0 {
        0
    } else {
        bin_val(s.drop_last()) * 2 + (if s.last() == '1' {
            1int
        } else {
            0int
        })
    }
}

/// The digit part of an unsigned decimal string: everything after an
/// optional leading plus sign.
pub open spec fn unsigned_digits(s: Seq<char>) -> Seq<char> {
    if s.len() > 0 && s[0] == '+' {
        s.skip(1)
    } else {
        s
    }
}

/// Whether `s` is a well-formed unsigned decimal string with value at most
/// `max`: an optional plus sign, then one or more decimal digits.
pub open spec fn valid_unsigned(s: Seq<char>, max: int) -> bool {
    let d = unsigned_digits(s);
    d.len() > 0 && all_dec_digits(d) && dec_val(d) <= max
}

/// Value of a well-formed unsigned decimal string.
pub open spec fn unsigned_val(s: Seq<char>) -> int {
    dec_val(unsigned_digits(s))
}

/// Whether a signed decimal string carries a leading minus sign.
pub open spec fn signed_negative(s: Seq<char>) -> bool {
    s.len() > 0 && s[0] == '-'
}

/// The digit part of a signed decimal string: everything after an optional
/// leading plus or minus sign.
pub open spec fn signed_digits(s: Seq<char>) -> Seq<char> {
    if s.len() > 0 && (s[0] == '-' || s[0] == '+') {
        s.skip(1)
    } else {
        s
    }
}

/// Signed value of a signed decimal string.
pub open spec fn signed_val(s: Seq<char>) -> int {
    if signed_negative(s) {
        -dec_val(signed_digits(s))
    } else {
        dec_val(signed_digits(s))
    }
}

/// Whether `s` is a well-formed signed decimal string whose value fits a
/// 32-bit signed integer.
pub open spec fn valid_i32_str(s: Seq<char>) -> bool {
    let d = signed_digits(s);
    d.len() > 0 && all_dec_digits(d) && i32::MIN <= signed_val(s) <= i32::MAX
}

/// Whether `s` is a well-formed flags bitfield: one or more binary digits
/// whose value is representable in 8 bits.
pub open spec fn valid_flags_str(s: Seq<char>) -> bool {
    s.len() > 0 && all_bin_digits(s) && bin_val(s) <= 255
}

/// A digit prefix never exceeds the full digit string's value, and digit
/// values are never negative.
proof fn lemma_dec_val_take_le(s: Seq<char>, i: int)
    requires
        all_dec_digits(s),
        0 <= i <= s.len(),
    ensures
        0 <= dec_val(s.take(i)) <= dec_val(s),
    decreases s.len(),
{
    if s.len() == 0 {
        assert(s.take(i) =~= s);
    } else if i == s.len() {
        assert(s.take(i) =~= s);
        lemma_dec_val_take_le(s.drop_last(), i - 1);
    } else {
        assert(s.drop_last().take(i) =~= s.take(i));
        lemma_dec_val_take_le(s.drop_last(), i);
    }
}

/// Like `lemma_dec_val_take_le`, for binary digit strings.
proof fn lemma_bin_val_take_le(s: Seq<char>, i: int)
    requires
        all_bin_digits(s),
        0 <= i <= s.len(),
    ensures
        0 <= bin_val(s.take(i)) <= bin_val(s),
    decreases s.len(),
{
    if s.len() == 0 {
        assert(s.take(i) =~= s);
    } else if i == s.len() {
        assert(s.take(i) =~= s);
        lemma_bin_val_take_le(s.drop_last(), i - 1);
    } else {
        assert(s.drop_last().take(i) =~= s.take(i));
        lemma_bin_val_take_le(s.drop_last(), i);
    }
}

/// Classifies one character as a decimal digit.
pub fn dec_digit(c: char) -> (r: Option<u8>)
    ensures
        r matches Some(d) ==> is_dec_digit(c) && d == digit_val(c),
        r is None ==> !is_dec_digit(c),
{
    let u = c as u32;
    if 48 <= u && u <= 57 {
        Some((u - 48) as u8)
    } else {
        None
    }
}

/// Parses the decimal digits of `s` from position `start` on, requiring at
/// least one digit, every remaining character a digit, and a value of at
/// most `max`.
fn parse_digits(s: &str, start: usize, max: u64) -> (r: Option<u64>)
    requires
        start <= s@.len(),
        max <= u32::MAX,
    ensures
        r matches Some(v) ==> {
            let d = s@.skip(start as int);
            d.len() > 0 && all_dec_digits(d) && v == dec_val(d) && v <= max
        },
        r is None ==> !{
            let d = s@.skip(start as int);
            d.len() > 0 && all_dec_digits(d) && dec_val(d) <= max
        },
{
    let n = s.unicode_len();
    if start >= n {
        return None;
    }
    let ghost d = s@.skip(start as int);
    let mut acc: u64 = 0;
    let mut i: usize = start;
    while i < n
        invariant
            start <= i <= n,
            n == s@.len(),
            d == s@.skip(start as int),
            all_dec_digits(d.take(i - start)),
            acc == dec_val(d.take(i - start)),
            acc <= max <= u32::MAX,
        decreases n - i,
    {
        let c = s.get_char(i);
        proof {
            assert(d[i - start] == s@[i as int]);
        }
        match dec_digit(c) {
            None => {
                return None;
            },
            Some(dv) => {
                let next = acc * 10 + (dv as u64);
                proof {
                    assert(d.take(i + 1 - start).drop_last() =~= d.take(i - start));
                    assert(d.take(i + 1 - start).last() == d[i - start]);
                }
                if next > max {
                    proof {
                        if all_dec_digits(d) {
                            lemma_dec_val_take_le(d, i + 1 - start);
                        }
                    }
                    return None;
                }
                acc = next;
            },
        }
        i = i + 1;
    }
    proof {
        assert(d.take(n - start) =~= d);
    }
    Some(acc)
}

/// Parses an unsigned decimal string (optional plus sign, then digits) with
/// value at most `max`.
pub fn parse_unsigned(s: &str, max: u64) -> (r: Option<u64>)
    requires
        max <= u32::MAX,
    ensures
        r matches Some(v) ==> valid_unsigned(s@, max as int) && v == unsigned_val(s@),
        r is None ==> !valid_unsigned(s@, max as int),
{
    let n = s.unicode_len();
    if n > 0 && s.get_char(0) == '+' {
        parse_digits(s, 1, max)
    } else {
        proof {
            assert(s@.skip(0) =~= s@);
        }
        parse_digits(s, 0, max)
    }
}

/// Parses a signed decimal string (optional plus or minus sign, then digits)
/// whose value fits a 32-bit signed integer.
pub fn parse_i32(s: &str) -> (r: Option<i32>)
    ensures
        r matches Some(v) ==> valid_i32_str(s@) && v == signed_val(s@),
        r is None ==> !valid_i32_str(s@),
{
    let n = s.unicode_len();
    if n > 0 && s.get_char(0) == '-' {
        match parse_digits(s, 1, 2147483648) {
            Some(v) => Some((-(v as i64)) as i32),
            None => None,
        }
    } else if n > 0 && s.get_char(0) == '+' {
        match parse_digits(s, 1, 2147483647) {
            Some(v) => Some(v as i32),
            None => None,
        }
    } else {
        proof {
            assert(s@.skip(0) =~= s@);
        }
        match parse_digits(s, 0, 2147483647) {
            Some(v) => Some(v as i32),
            None => None,
        }
    }
}

/// Parses a flags bitfield: one or more binary digits with value at most 255.
pub fn parse_flags(s: &str) -> (r: Option<u8>)
    ensures
        r matches Some(v) ==> valid_flags_str(s@) && v == bin_val(s@),
        r is None ==> !valid_flags_str(s@),
{
    let n = s.unicode_len();
    if n == 0 {
        return None;
    }
    let mut acc: u16 = 0;
    let mut i: usize = 0;
    while i < n
        invariant
            i <= n,
            n == s@.len(),
            all_bin_digits(s@.take(i as int)),
            acc == bin_val(s@.take(i as int)),
            acc <= 255,
        decreases n - i,
    {
        let c = s.get_char(i);
        proof {
            assert(s@.take(i + 1).drop_last() =~= s@.take(i as int));
            assert(s@.take(i + 1).last() == s@[i as int]);
        }
        let bit: u16 = if c == '0' {
            0
        } else if c == '1' {
            1
        } else {
            return None;
        };
        let next = acc * 2 + bit;
        if next > 255 {
            proof {
                if all_bin_digits(s@) {
                    lemma_bin_val_take_le(s@, i + 1);
                }
            }
            return None;
        }
        acc = next;
        i = i + 1;
    }
    proof {
        assert(s@.take(n as int) =~= s@);
    }
    Some(acc as u8)
}

} // verus!
