//! Calendar dates as plain year, month and day values, with the few
//! operations that go through chrono.

use chrono::{Datelike, NaiveDate};
use vstd::prelude::*;

verus! {

/// Earliest year that chrono's `NaiveDate` can hold.
pub const MIN_YEAR: i32 = -262143;

/// Latest year that chrono's `NaiveDate` can hold.
pub const MAX_YEAR: i32 = 262142;

/// A day of the proleptic Gregorian calendar.
#[derive(Clone, Copy, Debug, PartialEq, Eq, Structural)]
pub struct Date {
    pub year: i32,
    pub month: u32,
    pub day: u32,
}

pub open spec fn is_leap_year(y: int) -> bool {
    (y % 4 == 0 && y % 100 != 0) || y % 400 == 0
}

pub open spec fn days_in_month(y: int, m: int) -> int {
    if m == 2 {
        if is_leap_year(y) { 29 } else { 28 }
    } else if m == 4 || m == 6 || m == 9 || m == 11 {
        30
    } else {
        31
    }
}

/// Day order: by year, then month, then day.
pub open spec fn date_lt(a: Date, b: Date) -> bool {
    a.year < b.year || (a.year == b.year && (a.month < b.month || (a.month == b.month
        && a.day < b.day)))
}

pub open spec fn date_le(a: Date, b: Date) -> bool {
    date_lt(a, b) || a == b
}

pub open spec fn digit_char(n: int) -> char {
    ((n + 48) as u8) as char
}

/// The decimal digits of `n`, padded with zeros on the left to `width`.
pub open spec fn padded_digits(n: nat, width: nat) -> Seq<char>
    decreases width,
{
    if width == 0 {
        seq![]
    } else {
        padded_digits(n / 10, (width - 1) as nat).push(digit_char((n % 10) as int))
    }
}

/// `YYYY-MM-DD` for a date whose year has at most four digits.
pub open spec fn iso_text(d: Date) -> Seq<char> {
    padded_digits(d.year as nat, 4) + seq!['-'] + padded_digits(d.month as nat, 2) + seq!['-']
        + padded_digits(d.day as nat, 2)
}

pub open spec fn pow10(w: nat) -> nat
    decreases w,
{
    if w == 0 { 1 } else { 10 * pow10((w - 1) as nat) }
}

pub open spec fn is_digit(c: char) -> bool {
    '0' <= c <= '9'
}

pub open spec fn all_digits(s: Seq<char>) -> bool {
    forall|i: int| 0 <= i < s.len() ==> is_digit(#[trigger] s[i])
}

/// The number that a run of decimal digits spells.
pub open spec fn digits_value(s: Seq<char>) -> int
    decreases s.len(),
{
    if s.len() == 0 {
        0
    } else {
        digits_value(s.drop_last()) * 10 + (s.last() as int - 48)
    }
}

/// The date that a text spells in the strict form `YYYY-MM-DD`, if it spells one.
pub open spec fn iso_date_of(t: Seq<char>) -> Option<Date> {
    if t.len() == 10 && t[4] == '-' && t[7] == '-' && all_digits(t.subrange(0, 4))
        && all_digits(t.subrange(5, 7)) && all_digits(t.subrange(8, 10)) {
        let d = Date {
            year: digits_value(t.subrange(0, 4)) as i32,
            month: digits_value(t.subrange(5, 7)) as u32,
            day: digits_value(t.subrange(8, 10)) as u32,
        };
        if d.wf() {
            Some(d)
        } else {
            None
        }
    } else {
        None
    }
}

/// The date read from a date field: the strict spelling where there is one,
/// else whatever chrono accepts.
pub open spec fn date_field(t: Seq<char>) -> Option<Date> {
    match iso_date_of(t) {
        Some(d) => Some(d),
        None => parsed_date(t),
    }
}

/// The text that a date field is written as.
pub open spec fn date_text(d: Date) -> Seq<char> {
    if has_four_digit_year(d) {
        iso_text(d)
    } else {
        formatted_date(d)
    }
}

proof fn lemma_padded_digits(n: nat, w: nat)
    requires
        n < pow10(w),
    ensures
        padded_digits(n, w).len() == w,
        all_digits(padded_digits(n, w)),
        digits_value(padded_digits(n, w)) == n,
    decreases w,
{
    if w == 0 {
        assert(n == 0);
    } else {
        let p = pow10((w - 1) as nat);
        assert(n / 10 < p) by (nonlinear_arith)
            requires
                n < 10 * p,
        ;
        lemma_padded_digits(n / 10, (w - 1) as nat);
        let s = padded_digits(n, w);
        let c = digit_char((n % 10) as int);
        assert(s.drop_last() == padded_digits(n / 10, (w - 1) as nat));
        assert(is_digit(c) && c as int - 48 == n % 10);
        assert forall|i: int| 0 <= i < s.len() implies is_digit(#[trigger] s[i]) by {
            if i < s.len() - 1 {
                assert(s[i] == s.drop_last()[i]);
            }
        }
    }
}

/// `YYYY-MM-DD` holds digits and dashes only.
pub proof fn lemma_iso_text_digits(d: Date, i: int)
    requires
        d.wf(),
        has_four_digit_year(d),
        0 <= i < 10,
    ensures
        iso_text(d).len() == 10,
        is_digit(iso_text(d)[i]) || iso_text(d)[i] == '-',
{
    reveal_with_fuel(pow10, 5);
    lemma_padded_digits(d.year as nat, 4);
    lemma_padded_digits(d.month as nat, 2);
    lemma_padded_digits(d.day as nat, 2);
    let t = iso_text(d);
    if i < 4 {
        assert(t[i] == padded_digits(d.year as nat, 4)[i]);
    } else if 5 <= i < 7 {
        assert(t[i] == padded_digits(d.month as nat, 2)[i - 5]);
    } else if 8 <= i {
        assert(t[i] == padded_digits(d.day as nat, 2)[i - 8]);
    }
}

/// A date written as `YYYY-MM-DD` reads back as the same date.
pub proof fn lemma_iso_round_trip(d: Date)
    requires
        d.wf(),
        has_four_digit_year(d),
    ensures
        iso_date_of(iso_text(d)) == Some(d),
{
    reveal_with_fuel(pow10, 5);
    lemma_padded_digits(d.year as nat, 4);
    lemma_padded_digits(d.month as nat, 2);
    lemma_padded_digits(d.day as nat, 2);
    let t = iso_text(d);
    assert(t.subrange(0, 4) =~= padded_digits(d.year as nat, 4));
    assert(t.subrange(5, 7) =~= padded_digits(d.month as nat, 2));
    assert(t.subrange(8, 10) =~= padded_digits(d.day as nat, 2));
}

/// Years that `YYYY-MM-DD` spells with exactly four digits and no sign.
pub open spec fn has_four_digit_year(d: Date) -> bool {
    0 <= d.year <= 9999
}

impl Date {
    /// A day that exists in the calendar, within the range chrono supports.
    pub open spec fn wf(self) -> bool {
        &&& MIN_YEAR <= self.year <= MAX_YEAR
        &&& 1 <= self.month <= 12
        &&& 1 <= self.day <= days_in_month(self.year as int, self.month as int)
    }

    pub fn new(year: i32, month: u32, day: u32) -> (r: Option<Date>)
        ensures
            r matches Some(d) <==> (Date { year, month, day }).wf(),
            r matches Some(d) ==> d == (Date { year, month, day }),
    {
        if year < MIN_YEAR || year > MAX_YEAR || month < 1 || month > 12 || day < 1 {
            return None;
        }
        let leap = (year % 4 == 0 && year % 100 != 0) || year % 400 == 0;
        let last: u32 = if month == 2 {
            if leap { 29 } else { 28 }
        } else if month == 4 || month == 6 || month == 9 || month == 11 {
            30
        } else {
            31
        };
        if day > last {
            None
        } else {
            Some(Date { year, month, day })
        }
    }

    /// The date as the store writes it, `YYYY-MM-DD` for years 0 to 9999.
    pub fn to_text(&self) -> (r: String)
        requires
            self.wf(),
        ensures
            r@ == date_text(*self),
    {
        format_date(*self)
    }

    pub fn is_before(&self, other: &Date) -> (r: bool)
        ensures
            r == date_lt(*self, *other),
    {
        self.year < other.year || (self.year == other.year && (self.month < other.month || (
        self.month == other.month && self.day < other.day)))
    }

    pub fn is_after(&self, other: &Date) -> (r: bool)
        ensures
            r == date_lt(*other, *self),
    {
        other.is_before(self)
    }
}

/// What chrono's `NaiveDate::parse_from_str(s, "%Y-%m-%d")` makes of `s`.
pub uninterp spec fn parsed_date(s: Seq<char>) -> Option<Date>;

/// What chrono's `format("%Y-%m-%d")` writes for a date.
pub uninterp spec fn formatted_date(d: Date) -> Seq<char>;

/// How many days chrono counts from `from` to `to` (negative when `to` is earlier).
pub uninterp spec fn day_span(from: Date, to: Date) -> int;

/// Relies on chrono's `NaiveDate::parse_from_str` with the pattern `%Y-%m-%d`:
/// what it accepts is a valid `NaiveDate`, and a text that spells an existing
/// date as four digits, a dash, two digits, a dash and two digits parses to
/// that date.
#[verifier::external_body]
pub(crate) fn parse_date(s: &str) -> (r: Option<Date>)
    ensures
        r == parsed_date(s@),
        r matches Some(d) ==> d.wf(),
        iso_date_of(s@) matches Some(d) ==> r == Some(d),
{
    match NaiveDate::parse_from_str(s, "%Y-%m-%d") {
        Ok(n) => Some(Date { year: n.year(), month: n.month(), day: n.day() }),
        Err(_) => None,
    }
}

/// Relies on chrono's `NaiveDate::format` with `%Y-%m-%d`: a year from 0 to
/// 9999 is written with four zero-padded digits, month and day with two.
#[verifier::external_body]
pub(crate) fn format_date(d: Date) -> (r: String)
    requires
        d.wf(),
    ensures
        r@ == formatted_date(d),
        has_four_digit_year(d) ==> r@ == iso_text(d),
{
    NaiveDate::from_ymd_opt(d.year, d.month, d.day).unwrap().format("%Y-%m-%d").to_string()
}

/// Relies on chrono's `NaiveDate::signed_duration_since` and `TimeDelta::num_days`:
/// the whole days from `from` to `to`, zero for the same day, positive when
/// `to` comes later and negative when it comes earlier.
#[verifier::external_body]
pub(crate) fn days_between(from: Date, to: Date) -> (r: i64)
    requires
        from.wf(),
        to.wf(),
    ensures
        r == day_span(from, to),
        from == to ==> r == 0,
        date_lt(from, to) ==> r > 0,
        date_lt(to, from) ==> r < 0,
{
    let a = NaiveDate::from_ymd_opt(from.year, from.month, from.day).unwrap();
    let b = NaiveDate::from_ymd_opt(to.year, to.month, to.day).unwrap();
    b.signed_duration_since(a).num_days()
}

} // verus!
