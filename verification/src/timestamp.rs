//! Point-in-time values with sub-second precision, held as plain calendar
//! fields, and the parser for the fixed textual format
//! `YYYY-MM-DDTHH:MM:SS,F` used by the log lines (`F` is one to nine digits,
//! read as a plain count of nanoseconds).

use vstd::prelude::*;
use vstd::string::StrSliceExecFns;
use crate::text::{is_digit, char_is_digit};

verus! {

/// A calendar date and time of day with nanosecond precision.
#[derive(Clone, Copy, PartialEq, Eq, Structural, Debug)]
pub struct Timestamp {
    pub year: u32,
    pub month: u32,
    pub day: u32,
    pub hour: u32,
    pub minute: u32,
    pub second: u32,
    pub nanos: u32,
}

pub open spec fn is_leap_year(y: int) -> bool {
    y % 4 == 0 && (y % 100 != 0 || y % 400 == 0)
}

pub open spec fn days_in_month(y: int, m: int) -> int {
    if m == 2 {
        if is_leap_year(y) {
            29
        } else {
            28
        }
    } else if m == 4 || m == 6 || m == 9 || m == 11 {
        30
    } else {
        31
    }
}

impl Timestamp {
    /// The fields describe a real calendar date and a real time of day.
    pub open spec fn valid(self) -> bool {
        self.year <= 9999 && 1 <= self.month <= 12 && 1 <= self.day <= days_in_month(
            self.year as int,
            self.month as int,
        ) && self.hour <= 23 && self.minute <= 59 && self.second <= 59 && self.nanos
            <= 999_999_999
    }
}

/// Every character of `s` in `[from, to)` is a decimal digit.
pub open spec fn all_digits_range(s: Seq<char>, from: int, to: int) -> bool {
    forall|i: int| from <= i < to ==> is_digit(s[i])
}

/// Numeric value of a digit string, most significant digit first.
pub open spec fn digits_val(s: Seq<char>) -> int
    decreases s.len(),
{
    if s.len() == 0 {
        0
    } else {
        digits_val(s.drop_last()) * 10 + (s.last() as u32 - '0' as u32)
    }
}

pub open spec fn pow10(n: nat) -> int
    decreases n,
{
    if n == 0 {
        1
    } else {
        10 * pow10((n - 1) as nat)
    }
}

/// Read the digits of `s` in `[from, to)` as a number.
fn read_digits(s: &str, from: usize, to: usize) -> (v: u32)
    requires
        from <= to <= s@.len(),
        s@.len() <= usize::MAX,
        to - from <= 9,
        all_digits_range(s@, from as int, to as int),
    ensures
        v == digits_val(s@.subrange(from as int, to as int)),
{
    let mut v: u32 = 0;
    let mut i: usize = from;
    proof {
        assert(s@.subrange(from as int, from as int) =~= Seq::<char>::empty());
    }
    while i < to
        invariant
            from <= i <= to <= s@.len(),
            s@.len() <= usize::MAX,
            to - from <= 9,
            all_digits_range(s@, from as int, to as int),
            v == digits_val(s@.subrange(from as int, i as int)),
            v < pow10((i - from) as nat),
        decreases to - i,
    {
        let c = s.get_char(i);
        let d: u32 = (c as u32) - ('0' as u32);
        proof {
            let pre = s@.subrange(from as int, i as int);
            let post = s@.subrange(from as int, i + 1);
            assert(post.drop_last() =~= pre);
            assert(post.last() == s@[i as int]);
            assert(pow10(((i + 1) - from) as nat) == 10 * pow10((i - from) as nat));
            reveal_with_fuel(pow10, 10);
            assert(pow10((i - from) as nat) <= pow10(8)) by {
                lemma_pow10_increases((i - from) as nat, 8);
            }
        }
        v = v * 10 + d;
        i += 1;
    }
    v
}

proof fn lemma_pow10_increases(a: nat, b: nat)
    requires
        a <= b,
    ensures
        pow10(a) <= pow10(b),
    decreases b,
{
    if a < b {
        lemma_pow10_increases(a, (b - 1) as nat);
        assert(pow10(b) == 10 * pow10((b - 1) as nat));
        assert(pow10(a) >= 1) by {
            lemma_pow10_pos(a);
        }
        lemma_pow10_pos((b - 1) as nat);
    }
}

proof fn lemma_pow10_pos(n: nat)
    ensures
        pow10(n) >= 1,
    decreases n,
{
    if n > 0 {
        lemma_pow10_pos((n - 1) as nat);
    }
}

/// The text has the shape `YYYY-MM-DDTHH:MM:SS,F` with one to nine
/// fraction digits.
pub open spec fn timestamp_shape(s: Seq<char>) -> bool {
    &&& 21 <= s.len() <= 29
    &&& all_digits_range(s, 0, 4)
    &&& s[4] == '-'
    &&& all_digits_range(s, 5, 7)
    &&& s[7] == '-'
    &&& all_digits_range(s, 8, 10)
    &&& s[10] == 'T'
    &&& all_digits_range(s, 11, 13)
    &&& s[13] == ':'
    &&& all_digits_range(s, 14, 16)
    &&& s[16] == ':'
    &&& all_digits_range(s, 17, 19)
    &&& s[19] == ','
    &&& all_digits_range(s, 20, s.len() as int)
}

/// The timestamp denoted by `s`, if `s` has the fixed shape and its fields
/// describe a real calendar date and time.
pub open spec fn parse_timestamp(s: Seq<char>) -> Option<Timestamp> {
    if !timestamp_shape(s) {
        None
    } else {
        let t = Timestamp {
            year: digits_val(s.subrange(0, 4)) as u32,
            month: digits_val(s.subrange(5, 7)) as u32,
            day: digits_val(s.subrange(8, 10)) as u32,
            hour: digits_val(s.subrange(11, 13)) as u32,
            minute: digits_val(s.subrange(14, 16)) as u32,
            second: digits_val(s.subrange(17, 19)) as u32,
            nanos: digits_val(s.subrange(20, s.len() as int)) as u32,
        };
        if t.valid() {
            Some(t)
        } else {
            None
        }
    }
}

fn days_in_month_exec(y: u32, m: u32) -> (d: u32)
    ensures
        d == days_in_month(y as int, m as int),
{
    if m == 2 {
        if y % 4 == 0 && (y % 100 != 0 || y % 400 == 0) {
            29
        } else {
            28
        }
    } else if m == 4 || m == 6 || m == 9 || m == 11 {
        30
    } else {
        31
    }
}

/// Decide whether `s` has the fixed textual shape `YYYY-MM-DDTHH:MM:SS,F`.
pub fn is_timestamp_shape(s: &str) -> (r: bool)
    ensures
        r == timestamp_shape(s@),
{
    let len = s.unicode_len();
    if len < 21 || len > 29 {
        return false;
    }
    // separators
    if s.get_char(4) != '-' || s.get_char(7) != '-' || s.get_char(10) != 'T' || s.get_char(13)
        != ':' || s.get_char(16) != ':' || s.get_char(19) != ',' {
        return false;
    }
    // digit groups
    let mut i: usize = 0;
    while i < len
        invariant
            len == s@.len(),
            21 <= len <= 29,
            i <= len,
            forall|j: int|
                0 <= j < i && j != 4 && j != 7 && j != 10 && j != 13 && j != 16 && j != 19
                    ==> is_digit(s@[j]),
        decreases len - i,
    {
        if i != 4 && i != 7 && i != 10 && i != 13 && i != 16 && i != 19 {
            if !char_is_digit(s.get_char(i)) {
                return false;
            }
        }
        i += 1;
    }
    true
}

impl Timestamp {
    /// Parse the fixed format `YYYY-MM-DDTHH:MM:SS,F`; `None` when the text
    /// does not have that shape or names an impossible date or time.
    pub fn parse(s: &str) -> (r: Option<Timestamp>)
        ensures
            r == parse_timestamp(s@),
    {
        if !is_timestamp_shape(s) {
            return None;
        }
        let len = s.unicode_len();
        let t = Timestamp {
            year: read_digits(s, 0, 4),
            month: read_digits(s, 5, 7),
            day: read_digits(s, 8, 10),
            hour: read_digits(s, 11, 13),
            minute: read_digits(s, 14, 16),
            second: read_digits(s, 17, 19),
            nanos: read_digits(s, 20, len),
        };
        let ok = t.year <= 9999 && 1 <= t.month && t.month <= 12 && 1 <= t.day && t.day
            <= days_in_month_exec(t.year, t.month) && t.hour <= 23 && t.minute <= 59 && t.second
            <= 59 && t.nanos <= 999_999_999;
        if ok {
            Some(t)
        } else {
            None
        }
    }
}

} // verus!
