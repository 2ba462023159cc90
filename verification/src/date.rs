//! Calendar dates.
//!
//! A [`Date`] holds a year, a month and a day that exist together. Which ones
//! do, what the day before and after is and how a date is written comes from
//! `chrono`; what that crate promises of it is stated here.

use vstd::prelude::*;
use vstd::string::*;
use chrono::{Datelike, Days, NaiveDate};
use crate::text::{self, CharClass};

verus! {

/// A year, a month and a day.
#[verifier::ext_equal]
pub struct Day {
    pub year: int,
    pub month: int,
    pub day: int,
}

/// Whether a year has a 29th of February.
pub open spec fn is_leap(year: int) -> bool {
    year % 4 == 0 && (year % 100 != 0 || year % 400 == 0)
}

/// How many days a month has.
pub open spec fn month_len(year: int, month: int) -> int {
    if month == 2 {
        if is_leap(year) {
            29
        } else {
            28
        }
    } else if month == 4 || month == 6 || month == 9 || month == 11 {
        30
    } else {
        31
    }
}

/// The first and the last year of the calendar.
pub open spec fn in_calendar(year: int) -> bool {
    -262143 <= year <= 262142
}

impl Day {
    /// Whether there is such a day.
    pub open spec fn is_real(self) -> bool {
        in_calendar(self.year) && 1 <= self.month <= 12 && 1 <= self.day <= month_len(
            self.year,
            self.month,
        )
    }

    /// The day if there is such a day.
    pub open spec fn checked(self) -> Option<Day> {
        if self.is_real() {
            Some(self)
        } else {
            None
        }
    }

    /// The day after.
    pub open spec fn next(self) -> Day {
        if self.day < month_len(self.year, self.month) {
            Day { day: self.day + 1, ..self }
        } else if self.month < 12 {
            Day { month: self.month + 1, day: 1, ..self }
        } else {
            Day { year: self.year + 1, month: 1, day: 1 }
        }
    }

    /// The day before.
    pub open spec fn previous(self) -> Day {
        if self.day > 1 {
            Day { day: self.day - 1, ..self }
        } else if self.month > 1 {
            Day { month: self.month - 1, day: month_len(self.year, self.month - 1), ..self }
        } else {
            Day { year: self.year - 1, month: 12, day: 31 }
        }
    }

    /// Whether a day is not after another.
    pub open spec fn le(self, other: Day) -> bool {
        ||| self.year < other.year
        ||| self.year == other.year && self.month < other.month
        ||| self.year == other.year && self.month == other.month && self.day <= other.day
    }

    /// The day as `YYYY-MM-DD`. A year outside 0 to 9999 carries its sign.
    pub open spec fn text(self) -> Seq<char> {
        year_text(self.year) + seq!['-'] + padded(self.month as nat, 2) + seq!['-'] + padded(
            self.day as nat,
            2,
        )
    }
}

/// The days of a year before a month.
pub open spec fn days_before_month(year: int, month: int) -> int
    decreases month,
{
    if month <= 1 {
        0
    } else {
        days_before_month(year, month - 1) + month_len(year, month - 1)
    }
}

impl Day {
    /// The number of the day, counted from the start of the year 1.
    pub open spec fn number(self) -> int {
        let y = self.year - 1;
        365 * y + y / 4 - y / 100 + y / 400 + days_before_month(self.year, self.month) + self.day
    }
}

/// A number with at least `width` digits.
pub open spec fn padded(n: nat, width: nat) -> Seq<char> {
    let d = text::digits_spec(n);
    if d.len() < width {
        text::repeat_spec('0', (width - d.len()) as nat) + d
    } else {
        d
    }
}

pub open spec fn year_text(year: int) -> Seq<char> {
    if 0 <= year <= 9999 {
        padded(year as nat, 4)
    } else if year < 0 {
        seq!['-'] + padded((-year) as nat, 4)
    } else {
        seq!['+'] + padded(year as nat, 4)
    }
}

/// The day of an optional date.
pub open spec fn opt_day(o: Option<Date>) -> Option<Day> {
    match o {
        Some(d) => Some(d@),
        None => None,
    }
}

/// A day of the calendar.
#[derive(Debug, Clone, Copy, PartialEq, Eq, Structural)]
pub struct Date {
    year: i32,
    month: u32,
    day: u32,
}

impl View for Date {
    type V = Day;

    closed spec fn view(&self) -> Day {
        Day { year: self.year as int, month: self.month as int, day: self.day as int }
    }
}

/// `NaiveDate::from_ymd_opt` of `chrono`: gives a date for exactly the years,
/// months and days that exist together in the proleptic Gregorian calendar,
/// within the years the crate can hold.
#[verifier::external_body]
fn day_exists(year: i32, month: u32, day: u32) -> (r: bool)
    ensures
        r == (Day { year: year as int, month: month as int, day: day as int }).is_real(),
{
    NaiveDate::from_ymd_opt(year, month, day).is_some()
}

/// The year that `chrono::Local` gives for the moment of the call. Nothing is
/// promised of it.
#[verifier::external_body]
pub(crate) fn current_year() -> (r: i32) {
    chrono::Local::now().date_naive().year()
}

impl Date {
    #[verifier::type_invariant]
    spec fn inv(self) -> bool {
        (Day { year: self.year as int, month: self.month as int, day: self.day as int }).is_real()
    }

    /// The date with this year, month and day, if there is one.
    pub fn new(year: i32, month: u32, day: u32) -> (r: Option<Date>)
        ensures
            opt_day(r) == (Day {
                year: year as int,
                month: month as int,
                day: day as int,
            }).checked(),
    {
        if day_exists(year, month, day) {
            Some(Date { year, month, day })
        } else {
            None
        }
    }

    pub fn year(&self) -> (r: i32)
        ensures
            r == self@.year,
            self@.is_real(),
    {
        proof {
            use_type_invariant(self);
        }
        self.year
    }

    pub fn month(&self) -> (r: u32)
        ensures
            r == self@.month,
    {
        self.month
    }

    pub fn day(&self) -> (r: u32)
        ensures
            r == self@.day,
    {
        self.day
    }

    /// `NaiveDate::checked_add_days` of `chrono` with one day: the day after,
    /// or `None` behind the end of the calendar.
    #[verifier::external_body]
    pub(crate) fn tomorrow(self) -> (r: Option<Date>)
        ensures
            opt_day(r) == self@.next().checked(),
    {
        NaiveDate::from_ymd_opt(self.year, self.month, self.day)
            .and_then(|d| d.checked_add_days(Days::new(1)))
            .map(|d| Date { year: d.year(), month: d.month(), day: d.day() })
    }

    /// `NaiveDate::checked_sub_days` of `chrono` with one day: the day before,
    /// or `None` ahead of the start of the calendar.
    #[verifier::external_body]
    pub(crate) fn yesterday(self) -> (r: Option<Date>)
        ensures
            opt_day(r) == self@.previous().checked(),
    {
        NaiveDate::from_ymd_opt(self.year, self.month, self.day)
            .and_then(|d| d.checked_sub_days(Days::new(1)))
            .map(|d| Date { year: d.year(), month: d.month(), day: d.day() })
    }

    /// `NaiveDate::signed_duration_since` of `chrono`, in whole days: how many
    /// days after another date this one is, negative if it is before.
    #[verifier::external_body]
    pub(crate) fn days_since(self, other: Date) -> (r: i64)
        ensures
            r == self@.number() - other@.number(),
    {
        let a = NaiveDate::from_ymd_opt(self.year, self.month, self.day).unwrap_or_default();
        let b = NaiveDate::from_ymd_opt(other.year, other.month, other.day).unwrap_or_default();
        a.signed_duration_since(b).num_days()
    }

    /// `NaiveDate::format` of `chrono` with `%Y-%m-%d`: year, month and day
    /// with leading zeros and dashes between them.
    #[verifier::external_body]
    fn formatted(self) -> (r: String)
        ensures
            r@ == self@.text(),
    {
        NaiveDate::from_ymd_opt(self.year, self.month, self.day)
            .unwrap_or_default()
            .format("%Y-%m-%d")
            .to_string()
    }

    /// The date as `YYYY-MM-DD`.
    pub fn to_text(&self) -> (r: String)
        ensures
            r@ == self@.text(),
    {
        self.formatted()
    }

    /// Whether a date is not after another.
    pub fn at_most(&self, other: &Date) -> (r: bool)
        ensures
            r == self@.le(other@),
    {
        self.year < other.year || (self.year == other.year && (self.month < other.month || (
        self.month == other.month && self.day <= other.day)))
    }
}

// ---- what a person types ----

/// The numbers that texts write, if all of them do.
pub open spec fn counts_spec(parts: Seq<Seq<char>>) -> Option<Seq<int>>
    decreases parts.len(),
{
    if parts.len() == 0 {
        Some(Seq::empty())
    } else {
        match (counts_spec(parts.drop_last()), text::count_upto(parts.last(), u32::MAX as int)) {
            (Some(before), Some(n)) => Some(before.push(n)),
            _ => None,
        }
    }
}

/// A text with its ASCII capitals in lower case.
pub open spec fn ascii_lower_spec(s: Seq<char>) -> Seq<char> {
    s.map_values(|c: char| ascii_lower_char(c))
}

pub open spec fn ascii_lower_char(c: char) -> char {
    if 'A' <= c && c <= 'Z' {
        (c as int + 32) as char
    } else {
        c
    }
}

/// The date that a typed text means on a given day: nothing and `today` mean
/// that day, `yesterday` and `tomorrow` its neighbours, one number a day of its
/// month, two a month and a day of its year, three a full date.
pub open spec fn resolve_spec(input: Seq<char>, today: Day) -> Option<Day> {
    let s = text::trim_spec(input, CharClass::White);
    let word = ascii_lower_spec(s);
    if s.len() == 0 || word == "today"@ {
        Some(today)
    } else if word == "yesterday"@ {
        today.previous().checked()
    } else if word == "tomorrow"@ {
        today.next().checked()
    } else {
        match counts_spec(text::split_spec(s, CharClass::DateSep)) {
            None => None,
            Some(n) => if n.len() == 1 {
                (Day { year: today.year, month: today.month, day: n[0] }).checked()
            } else if n.len() == 2 {
                (Day { year: today.year, month: n[0], day: n[1] }).checked()
            } else if n.len() == 3 {
                (Day { year: n[0], month: n[1], day: n[2] }).checked()
            } else {
                None
            },
        }
    }
}

/// A text with its ASCII capitals in lower case.
fn ascii_lower(s: &str) -> (r: String)
    ensures
        r@ == ascii_lower_spec(s@),
{
    let v = text::chars(s);
    let mut out = String::new();
    let ghost want = ascii_lower_spec(s@);
    let mut i: usize = 0;
    assert(out@ =~= want.take(0));
    while i < v.len()
        invariant
            i <= v@.len(),
            v@ == s@,
            want == ascii_lower_spec(s@),
            out@ == want.take(i as int),
        decreases v@.len() - i,
    {
        let c = v[i];
        let d = if 'A' <= c && c <= 'Z' {
            ((c as u32 + 32) as u8) as char
        } else {
            c
        };
        assert(d == want[i as int]);
        out.push(d);
        i = i + 1;
        assert(want.take(i as int) =~= want.take(i - 1).push(want[i - 1]));
    }
    assert(want.take(want.len() as int) =~= want);
    out
}

/// The numbers that texts write, if all of them do.
fn counts(parts: &[&str]) -> (r: Option<Vec<u32>>)
    ensures
        match r {
            Some(v) => counts_spec(text::strs(parts@)) == Some(v@.map_values(|n: u32| n as int)),
            None => counts_spec(text::strs(parts@)) is None,
        },
{
    let ghost all = text::strs(parts@);
    let mut out: Vec<u32> = Vec::new();
    let mut i: usize = 0;
    assert(out@.map_values(|n: u32| n as int) =~= Seq::empty());
    while i < parts.len()
        invariant
            i <= parts@.len(),
            all == text::strs(parts@),
            counts_spec(all.take(i as int)) == Some(out@.map_values(|n: u32| n as int)),
        decreases parts@.len() - i,
    {
        assert(all.take(i + 1).drop_last() =~= all.take(i as int));
        assert(all.take(i + 1).last() == parts@[i as int]@);
        i = i + 1;
        match text::parse_u32(parts[i - 1]) {
            None => {
                proof {
                    lemma_counts_unknown(all, i as int);
                }
                return None;
            },
            Some(n) => {
                let ghost before = out@;
                out.push(n);
                assert(out@.map_values(|n: u32| n as int) =~= before.map_values(
                    |n: u32| n as int,
                ).push(n as int));
            },
        }
    }
    assert(all.take(all.len() as int) =~= all);
    Some(out)
}

proof fn lemma_counts_unknown(parts: Seq<Seq<char>>, n: int)
    requires
        0 <= n <= parts.len(),
        counts_spec(parts.take(n)) is None,
    ensures
        counts_spec(parts) is None,
    decreases parts.len() - n,
{
    if n < parts.len() {
        assert(parts.take(n + 1).drop_last() =~= parts.take(n));
        lemma_counts_unknown(parts, n + 1);
    } else {
        assert(parts.take(n) =~= parts);
    }
}

/// Resolve a typed date against `today`. `None` means not (yet) a date.
///
/// Accepted forms: full `YYYY-MM-DD` (separators `-`, `/`, `.`), partial
/// `M-D` (current year), bare `D` (current month), and the words `today`,
/// `yesterday`, `tomorrow`. Empty input means today.
#[must_use]
pub fn resolve(input: &str, today: Date) -> (r: Option<Date>)
    ensures
        opt_day(r) == resolve_spec(input@, today@),
{
    let s = text::trim(input, CharClass::White);
    let word = ascii_lower(s);
    if s.is_empty() || text::same(word.as_str(), "today") {
        return Some(today);
    }
    if text::same(word.as_str(), "yesterday") {
        return today.yesterday();
    }
    if text::same(word.as_str(), "tomorrow") {
        return today.tomorrow();
    }
    let parts = text::split(s, CharClass::DateSep);
    match counts(parts.as_slice()) {
        None => None,
        Some(n) => {
            let ghost nv = n@.map_values(|n: u32| n as int);
            assert(nv.len() == n@.len());
            if n.len() == 1 {
                assert(nv[0] == n@[0]);
                Date::new(today.year(), today.month(), n[0])
            } else if n.len() == 2 {
                assert(nv[0] == n@[0] && nv[1] == n@[1]);
                Date::new(today.year(), n[0], n[1])
            } else if n.len() == 3 {
                assert(nv[0] == n@[0] && nv[1] == n@[1] && nv[2] == n@[2]);
                if n[0] > 0x7fff_ffff {
                    None
                } else {
                    Date::new(n[0] as i32, n[1], n[2])
                }
            } else {
                None
            }
        },
    }
}

/// The date a journal token writes. A secondary date (`=DATE`) is dropped, and
/// a date without a year takes the given one.
pub open spec fn parse_date_spec(token: Seq<char>, year: int) -> Option<Day> {
    let primary = text::split_spec(token, CharClass::Is('='))[0];
    let parts = text::split_spec(primary, CharClass::DateSep);
    let full = parts.len() == 3;
    if full || parts.len() == 2 {
        let k = if full {
            1int
        } else {
            0
        };
        let y = if full {
            text::number_between(parts[0], i32::MIN as int, i32::MAX as int)
        } else {
            Some(year)
        };
        match (
            y,
            text::count_upto(parts[k], u32::MAX as int),
            text::count_upto(parts[k + 1], u32::MAX as int),
        ) {
            (Some(y), Some(m), Some(d)) => (Day { year: y, month: m, day: d }).checked(),
            _ => None,
        }
    } else {
        None
    }
}

/// Parse a header's primary date.
///
/// A full `Y-M-D` date (separators `-`, `/`, `.`) is taken as written. A
/// partial `M-D` date takes `year`, so it is always resolvable and never skips
/// its transaction.
pub fn parse_date(token: &str, year: i32) -> (r: Option<Date>)
    ensures
        opt_day(r) == parse_date_spec(token@, year as int),
{
    let halves = text::split(token, CharClass::Is('='));
    let ghost hv = text::split_spec(token@, CharClass::Is('='));
    assert(hv.len() == halves@.len());
    assert(hv.len() >= 1);
    assert(hv[0] == halves@[0]@);
    let parts = text::split(halves[0], CharClass::DateSep);
    let ghost pv = text::split_spec(halves@[0]@, CharClass::DateSep);
    assert(pv.len() == parts@.len());
    if parts.len() == 3 {
        assert(pv[0] == parts@[0]@ && pv[1] == parts@[1]@ && pv[2] == parts@[2]@);
        match (text::parse_i32(parts[0]), text::parse_u32(parts[1]), text::parse_u32(parts[2])) {
            (Some(y), Some(m), Some(d)) => Date::new(y, m, d),
            _ => None,
        }
    } else if parts.len() == 2 {
        assert(pv[0] == parts@[0]@ && pv[1] == parts@[1]@);
        match (text::parse_u32(parts[0]), text::parse_u32(parts[1])) {
            (Some(m), Some(d)) => Date::new(year, m, d),
            _ => None,
        }
    } else {
        None
    }
}

} // verus!
