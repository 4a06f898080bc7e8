use vstd::prelude::*;

use crate::text::chars_to_string;
use crate::text::digit_char;
use crate::text::lemma_digit_char_val;
use crate::text::spec_digit_char;
use crate::text::spec_digit_val;
use crate::text::spec_is_digit;
use crate::text::to_chars;

verus! {

/// A calendar date in the proleptic Gregorian calendar, the key under which
/// a day's notes are stored.  Only years 0 through 9999 are supported, so
/// that every date has a four-digit `YYYY-MM-DD` rendering.
#[derive(Clone, Copy, Debug, Hash, PartialEq, Eq, Structural)]
pub struct Date {
    pub year: u32,
    pub month: u32,
    pub day: u32,
}

pub open spec fn spec_leap_year(y: int) -> bool {
    y % 4 == 0 && (y % 100 != 0 || y % 400 == 0)
}

pub open spec fn spec_days_in_month(y: int, m: int) -> int {
    if m == 2 {
        if spec_leap_year(y) {
            29
        } else {
            28
        }
    } else if m == 4 || m == 6 || m == 9 || m == 11 {
        30
    } else {
        31
    }
}

pub fn days_in_month(y: u32, m: u32) -> (n: u32)
    ensures
        n == spec_days_in_month(y as int, m as int),
{
    if m == 2 {
        if y % 4 == 0 && (y % 100 != 0 || y % 400 == 0) {
            29
        } else {
            28
        }
    } else if m == 4 || m == 6 || m == 9 || m == 11 {
        30
    } else {
        31
    }
}

impl Date {
    /// A well-formed date: a real calendar day within the supported years.
    pub open spec fn wf(self) -> bool {
        &&& self.year <= 9999
        &&& 1 <= self.month <= 12
        &&& 1 <= self.day <= spec_days_in_month(self.year as int, self.month as int)
    }

    /// Dates are ordered by this integer, which stacks year, month and day
    /// into decimal positions; for well-formed dates the order is exactly
    /// chronological order.
    pub open spec fn spec_key(self) -> int {
        self.year * 10000 + self.month * 100 + self.day
    }

    pub fn key(&self) -> (k: u32)
        requires
            self.wf(),
        ensures
            k == self.spec_key(),
    {
        self.year * 10000 + self.month * 100 + self.day
    }

    /// Builds a date after checking that the components name a real calendar
    /// day in the supported range.
    pub fn new_checked(year: u32, month: u32, day: u32) -> (r: Option<Date>)
        ensures
            r matches Some(d) ==> d == (Date { year, month, day }) && d.wf(),
            r is None ==> !(Date { year, month, day }).wf(),
    {
        if year <= 9999 && 1 <= month && month <= 12 && 1 <= day && day <= days_in_month(
            year,
            month,
        ) {
            Some(Date { year, month, day })
        } else {
            None
        }
    }
}

/// The `YYYY-MM-DD` rendering of a date: four year digits, two month digits
/// and two day digits, zero padded, separated by hyphens.
pub open spec fn spec_date_chars(d: Date) -> Seq<char> {
    seq![
        spec_digit_char(d.year as int / 1000),
        spec_digit_char((d.year as int / 100) % 10),
        spec_digit_char((d.year as int / 10) % 10),
        spec_digit_char(d.year as int % 10),
        '-',
        spec_digit_char(d.month as int / 10),
        spec_digit_char(d.month as int % 10),
        '-',
        spec_digit_char(d.day as int / 10),
        spec_digit_char(d.day as int % 10),
    ]
}

/// The date a `YYYY-MM-DD` string names: `Some` exactly when the text is ten
/// characters of that shape and the components form a real calendar day.
pub open spec fn spec_parse_date(s: Seq<char>) -> Option<Date> {
    if s.len() == 10 && spec_is_digit(s[0]) && spec_is_digit(s[1]) && spec_is_digit(s[2])
        && spec_is_digit(s[3]) && s[4] == '-' && spec_is_digit(s[5]) && spec_is_digit(s[6]) && s[7]
        == '-' && spec_is_digit(s[8]) && spec_is_digit(s[9]) {
        let y = spec_digit_val(s[0]) * 1000 + spec_digit_val(s[1]) * 100 + spec_digit_val(s[2]) * 10
            + spec_digit_val(s[3]);
        let m = spec_digit_val(s[5]) * 10 + spec_digit_val(s[6]);
        let dd = spec_digit_val(s[8]) * 10 + spec_digit_val(s[9]);
        let date = Date { year: y as u32, month: m as u32, day: dd as u32 };
        if date.wf() {
            Some(date)
        } else {
            None
        }
    } else {
        None
    }
}

fn is_digit(c: char) -> (b: bool)
    ensures
        b == spec_is_digit(c),
{
    c as u32 >= 48 && c as u32 <= 57
}

fn digit_val(c: char) -> (v: u32)
    requires
        spec_is_digit(c),
    ensures
        v == spec_digit_val(c),
        v <= 9,
{
    c as u32 - 48
}

impl Date {
    /// Appends this date's `YYYY-MM-DD` rendering to `out`.
    pub fn push_chars(&self, out: &mut Vec<char>)
        requires
            self.wf(),
        ensures
            final(out)@ == old(out)@ + spec_date_chars(*self),
    {
        out.push(digit_char(self.year / 1000));
        out.push(digit_char((self.year / 100) % 10));
        out.push(digit_char((self.year / 10) % 10));
        out.push(digit_char(self.year % 10));
        out.push('-');
        out.push(digit_char(self.month / 10));
        out.push(digit_char(self.month % 10));
        out.push('-');
        out.push(digit_char(self.day / 10));
        out.push(digit_char(self.day % 10));
        assert(out@ =~= old(out)@ + spec_date_chars(*self));
    }

    /// The `YYYY-MM-DD` rendering of this date as a string.
    pub fn format(&self) -> (r: String)
        requires
            self.wf(),
        ensures
            r@ == spec_date_chars(*self),
    {
        let mut out: Vec<char> = Vec::new();
        self.push_chars(&mut out);
        chars_to_string(&out)
    }

    /// Parses a `YYYY-MM-DD` string; rejects any other shape and any
    /// component combination that is not a real calendar day.
    pub fn parse(s: &str) -> (r: Option<Date>)
        ensures
            r == spec_parse_date(s@),
    {
        let cs = to_chars(s);
        if cs.len() != 10 {
            return None;
        }
        if !(is_digit(cs[0]) && is_digit(cs[1]) && is_digit(cs[2]) && is_digit(cs[3]) && cs[4]
            == '-' && is_digit(cs[5]) && is_digit(cs[6]) && cs[7] == '-' && is_digit(cs[8])
            && is_digit(cs[9])) {
            return None;
        }
        let y = digit_val(cs[0]) * 1000 + digit_val(cs[1]) * 100 + digit_val(cs[2]) * 10
            + digit_val(cs[3]);
        let m = digit_val(cs[5]) * 10 + digit_val(cs[6]);
        let dd = digit_val(cs[8]) * 10 + digit_val(cs[9]);
        Date::new_checked(y, m, dd)
    }
}

/// Rendering a well-formed date and parsing the text back yields the date.
pub proof fn lemma_date_render_parse(d: Date)
    requires
        d.wf(),
    ensures
        spec_parse_date(spec_date_chars(d)) == Some(d),
{
    let s = spec_date_chars(d);
    let y = d.year as int;
    let m = d.month as int;
    let dd = d.day as int;
    lemma_digit_char_val(y / 1000);
    lemma_digit_char_val((y / 100) % 10);
    lemma_digit_char_val((y / 10) % 10);
    lemma_digit_char_val(y % 10);
    lemma_digit_char_val(m / 10);
    lemma_digit_char_val(m % 10);
    lemma_digit_char_val(dd / 10);
    lemma_digit_char_val(dd % 10);
    assert((y / 1000) * 1000 + ((y / 100) % 10) * 100 + ((y / 10) % 10) * 10 + y % 10 == y);
    assert((m / 10) * 10 + m % 10 == m);
    assert((dd / 10) * 10 + dd % 10 == dd);
}

/// Two well-formed dates with the same key are the same date.
pub proof fn lemma_key_injective(a: Date, b: Date)
    requires
        a.wf(),
        b.wf(),
        a.spec_key() == b.spec_key(),
    ensures
        a == b,
{
}

} // verus!
