//! What dates mean: how days follow one another, and what a written date says.

use vstd::prelude::*;
use crate::date::{self, Day};
use crate::text::{self, CharClass};
use crate::tokens;

verus! {

// ---- days ----

/// The number of the last day before a year.
pub open spec fn year_start(year: int) -> int {
    let y = year - 1;
    365 * y + y / 4 - y / 100 + y / 400
}

proof fn lemma_year_len(year: int)
    ensures
        date::days_before_month(year, 13) == 365 + if date::is_leap(year) {
            1int
        } else {
            0
        },
        year_start(year + 1) == year_start(year) + date::days_before_month(year, 13),
{
    reveal_with_fuel(date::days_before_month, 14);
}

proof fn lemma_years(a: int, b: int)
    requires
        a <= b,
    ensures
        year_start(a) <= year_start(b),
    decreases b - a,
{
    if a < b {
        lemma_years(a, b - 1);
        lemma_year_len(b - 1);
    }
}

proof fn lemma_months(year: int, a: int, b: int)
    requires
        1 <= a <= b <= 13,
    ensures
        0 <= date::days_before_month(year, a) <= date::days_before_month(year, b),
        a < b ==> date::days_before_month(year, a) + date::month_len(year, a)
            <= date::days_before_month(year, b),
    decreases b - a,
{
    reveal_with_fuel(date::days_before_month, 14);
    if a + 1 < b {
        lemma_months(year, a, b - 1);
    }
}

pub proof fn lemma_before(a: Day, b: Day)
    requires
        a.is_real(),
        b.is_real(),
        a.year < b.year || a.year == b.year && (a.month < b.month || a.month == b.month && a.day
            < b.day),
    ensures
        a.number() < b.number(),
{
    lemma_months(a.year, a.month, 13);
    lemma_months(b.year, 1, b.month);
    if a.year < b.year {
        lemma_year_len(a.year);
        lemma_years(a.year + 1, b.year);
    } else if a.month < b.month {
        lemma_months(a.year, a.month, b.month);
    }
}

/// Days are compared by the calendar: one is not after another exactly where
/// no more days have passed up to it. The year decides, then the month, then the
/// day, and no two days are level.
pub proof fn days_are_in_order(a: Day, b: Day)
    requires
        a.is_real(),
        b.is_real(),
    ensures
        a.le(b) == (a.number() <= b.number()),
        a.year != b.year ==> a.le(b) == (a.year < b.year),
        a.year == b.year && a.month != b.month ==> a.le(b) == (a.month < b.month),
        a.year == b.year && a.month == b.month ==> a.le(b) == (a.day <= b.day),
        a.number() == b.number() ==> a == b,
{
    if a.year < b.year || a.year == b.year && (a.month < b.month || a.month == b.month && a.day
        < b.day) {
        lemma_before(a, b);
    } else if a != b {
        lemma_before(b, a);
    }
}

/// The day after is one day later and the day before one day earlier, and both
/// exist but at the ends of the calendar.
pub proof fn neighbours_are_a_day_apart(d: Day)
    requires
        d.is_real(),
    ensures
        d.next().number() == d.number() + 1,
        d.previous().number() == d.number() - 1,
        d.next().previous() == d,
        d.previous().next() == d,
        date::in_calendar(d.next().year) ==> d.next().is_real(),
        date::in_calendar(d.previous().year) ==> d.previous().is_real(),
{
    lemma_year_len(d.year);
    lemma_year_len(d.year - 1);
    reveal_with_fuel(date::days_before_month, 14);
}

// ---- texts ----

/// Whether a text writes a number in digits, with leading zeros or without.
pub open spec fn writes(s: Seq<char>, n: int) -> bool {
    s.len() > 0 && text::all_digits(s) && text::digits_value(s) == n
}

/// Whether a character separates the parts of a date.
pub open spec fn parts_dates(c: char) -> bool {
    c == '-' || c == '/' || c == '.'
}

/// Whether a text is nothing but white space.
pub open spec fn blank(s: Seq<char>) -> bool {
    forall|i: int| 0 <= i < s.len() ==> text::is_white(#[trigger] s[i])
}

/// A date written in full.
pub open spec fn full(y: Seq<char>, p: char, m: Seq<char>, q: char, d: Seq<char>) -> Seq<char> {
    y + seq![p] + m + seq![q] + d
}

/// A month and a day.
pub open spec fn short(m: Seq<char>, p: char, d: Seq<char>) -> Seq<char> {
    m + seq![p] + d
}

proof fn lemma_split_at(x: Seq<char>, c: char, y: Seq<char>, class: CharClass)
    requires
        forall|i: int| 0 <= i < x.len() ==> !class.has(#[trigger] x[i]),
        class.has(c),
    ensures
        text::split_spec(x + seq![c] + y, class) == seq![x] + text::split_spec(y, class),
{
    let s = x + seq![c] + y;
    let n = x.len() as int;
    assert forall|i: int| 0 <= i < n implies class.has(#[trigger] s[i]) == false by {
        assert(s[i] == x[i]);
    }
    assert(s[n] == c);
    text::lemma_run_is(s, class, false, n);
    assert(s.take(n) =~= x);
    assert(s.skip(n + 1) =~= y);
}

proof fn lemma_split_none(x: Seq<char>, class: CharClass)
    requires
        forall|i: int| 0 <= i < x.len() ==> !class.has(#[trigger] x[i]),
    ensures
        text::split_spec(x, class) == seq![x],
{
    text::lemma_run_is(x, class, false, x.len() as int);
}

proof fn lemma_no_sep(x: Seq<char>)
    requires
        text::all_digits(x),
    ensures
        forall|i: int| 0 <= i < x.len() ==> !CharClass::DateSep.has(#[trigger] x[i]),
{
    assert forall|i: int| 0 <= i < x.len() implies !CharClass::DateSep.has(#[trigger] x[i]) by {
        assert(text::is_digit(x[i]));
    }
}

pub proof fn lemma_count(x: Seq<char>, n: int)
    requires
        writes(x, n),
        n <= u32::MAX,
    ensures
        text::count_upto(x, u32::MAX as int) == Some(n),
        text::number_between(x, i32::MIN as int, i32::MAX as int) == (if n <= i32::MAX {
            Some(n)
        } else {
            None
        }),
        text::number_between(x, i64::MIN as int, i64::MAX as int) == Some(n),
{
    assert(text::is_digit(x[0]));
}

/// The parts of a full date.
pub proof fn lemma_full_parts(y: Seq<char>, p: char, m: Seq<char>, q: char, d: Seq<char>)
    requires
        text::all_digits(y),
        text::all_digits(m),
        text::all_digits(d),
        parts_dates(p),
        parts_dates(q),
    ensures
        text::split_spec(full(y, p, m, q, d), CharClass::DateSep) == seq![y, m, d],
{
    lemma_no_sep(y);
    lemma_no_sep(m);
    lemma_no_sep(d);
    let sep = CharClass::DateSep;
    lemma_split_none(d, sep);
    lemma_split_at(m, q, d, sep);
    lemma_split_at(y, p, m + seq![q] + d, sep);
    assert(full(y, p, m, q, d) =~= y + seq![p] + (m + seq![q] + d));
    assert(seq![y] + (seq![m] + seq![d]) =~= seq![y, m, d]);
}

/// The parts of a month and a day.
pub proof fn lemma_short_parts(m: Seq<char>, p: char, d: Seq<char>)
    requires
        text::all_digits(m),
        text::all_digits(d),
        parts_dates(p),
    ensures
        text::split_spec(short(m, p, d), CharClass::DateSep) == seq![m, d],
{
    lemma_no_sep(m);
    lemma_no_sep(d);
    lemma_split_none(d, CharClass::DateSep);
    lemma_split_at(m, p, d, CharClass::DateSep);
    assert(seq![m] + seq![d] =~= seq![m, d]);
}

/// Whether a text is made of digits and separators and begins and ends in a
/// digit.
pub open spec fn dateish(s: Seq<char>) -> bool {
    &&& s.len() > 0
    &&& forall|i: int| 0 <= i < s.len() ==> text::is_digit(#[trigger] s[i]) || parts_dates(s[i])
    &&& text::is_digit(s[0])
    &&& text::is_digit(s.last())
}

pub proof fn lemma_full_dateish(y: Seq<char>, p: char, m: Seq<char>, q: char, d: Seq<char>)
    requires
        y.len() > 0,
        d.len() > 0,
        text::all_digits(y),
        text::all_digits(m),
        text::all_digits(d),
        parts_dates(p),
        parts_dates(q),
    ensures
        dateish(full(y, p, m, q, d)),
{
    let s = full(y, p, m, q, d);
    let a = y.len() as int;
    let b = a + 1 + m.len();
    assert forall|i: int| 0 <= i < s.len() implies text::is_digit(#[trigger] s[i]) || parts_dates(
        s[i],
    ) by {
        if i < a {
            assert(s[i] == y[i]);
        } else if a < i < b {
            assert(s[i] == m[i - a - 1]);
        } else if i > b {
            assert(s[i] == d[i - b - 1]);
        }
    }
    assert(s[0] == y[0]);
    assert(s.last() == d[d.len() - 1]);
}

pub proof fn lemma_short_dateish(m: Seq<char>, p: char, d: Seq<char>)
    requires
        m.len() > 0,
        d.len() > 0,
        text::all_digits(m),
        text::all_digits(d),
        parts_dates(p),
    ensures
        dateish(short(m, p, d)),
{
    let s = short(m, p, d);
    assert forall|i: int| 0 <= i < s.len() implies text::is_digit(#[trigger] s[i]) || parts_dates(
        s[i],
    ) by {
        if i < m.len() {
            assert(s[i] == m[i]);
        } else if i > m.len() {
            assert(s[i] == d[i - m.len() - 1]);
        }
    }
    assert(s[0] == m[0]);
    assert(s.last() == d[d.len() - 1]);
}

/// White space around a text that neither begins nor ends in any is trimmed.
proof fn lemma_trimmed(a: Seq<char>, s: Seq<char>, b: Seq<char>)
    requires
        blank(a),
        blank(b),
        s.len() > 0,
        !text::is_white(s[0]),
        !text::is_white(s.last()),
    ensures
        text::trim_spec(a + s + b, CharClass::White) == s,
{
    let all = a + s + b;
    let white = CharClass::White;
    assert forall|i: int| 0 <= i < a.len() implies white.has(#[trigger] all[i]) == true by {
        assert(all[i] == a[i]);
    }
    assert(all[a.len() as int] == s[0]);
    text::lemma_run_is(all, white, true, a.len() as int);
    let t = s + b;
    assert(all.skip(a.len() as int) =~= t);
    assert forall|i: int| t.len() - b.len() <= i < t.len() implies white.has(#[trigger] t[i])
        == true by {
        assert(t[i] == b[i - s.len()]);
    }
    assert(t[t.len() - b.len() - 1] == s.last());
    text::lemma_run_back_is(t, white, true, b.len() as int);
    assert(t.take(s.len() as int) =~= s);
}

/// What is typed as a date is none of the words.
proof fn lemma_no_word(s: Seq<char>)
    requires
        dateish(s),
    ensures
        ({
            let w = date::ascii_lower_spec(s);
            w != "today"@ && w != "yesterday"@ && w != "tomorrow"@
        }),
        !text::is_white(s[0]),
        !text::is_white(s.last()),
{
    reveal_strlit("today");
    reveal_strlit("yesterday");
    reveal_strlit("tomorrow");
    let w = date::ascii_lower_spec(s);
    assert(w[0] == s[0]);
}

// ---- what a person types ----

/// A full date that is typed is that year, month and day, whatever separates
/// them and whatever day it is; where there is no such day it is no date.
pub proof fn a_typed_date_is_taken_as_written(
    a: Seq<char>,
    y: Seq<char>,
    p: char,
    m: Seq<char>,
    q: char,
    d: Seq<char>,
    b: Seq<char>,
    day: Day,
    today: Day,
)
    requires
        blank(a),
        blank(b),
        parts_dates(p),
        parts_dates(q),
        writes(y, day.year),
        writes(m, day.month),
        writes(d, day.day),
    ensures
        date::resolve_spec(a + full(y, p, m, q, d) + b, today) == (if day.is_real() {
            Some(day)
        } else {
            None
        }),
{
    let s = full(y, p, m, q, d);
    lemma_full_parts(y, p, m, q, d);
    lemma_full_dateish(y, p, m, q, d);
    lemma_no_word(s);
    lemma_trimmed(a, s, b);
    assert(text::is_digit(y[0]) && text::is_digit(m[0]) && text::is_digit(d[0]));
    let parts = seq![y, m, d];
    assert(parts.drop_last() =~= seq![y, m]);
    assert(parts.drop_last().drop_last() =~= seq![y]);
    assert(parts.drop_last().drop_last().drop_last() =~= Seq::empty());
    reveal_with_fuel(date::counts_spec, 4);
    if day.is_real() {
        lemma_count(y, day.year);
        lemma_count(m, day.month);
        lemma_count(d, day.day);
        assert(date::counts_spec(parts)->0 =~= seq![day.year, day.month, day.day]);
    } else if let Some(n) = date::counts_spec(parts) {
        assert(n =~= seq![day.year, day.month, day.day]);
    }
}

/// A month and a day that are typed are that month and day of this year.
pub proof fn a_typed_month_and_day_are_of_this_year(
    a: Seq<char>,
    m: Seq<char>,
    p: char,
    d: Seq<char>,
    b: Seq<char>,
    month: int,
    day: int,
    today: Day,
)
    requires
        blank(a),
        blank(b),
        parts_dates(p),
        writes(m, month),
        writes(d, day),
    ensures
        ({
            let then = Day { year: today.year, month, day };
            date::resolve_spec(a + short(m, p, d) + b, today) == (if then.is_real() {
                Some(then)
            } else {
                None
            })
        }),
{
    let s = short(m, p, d);
    let then = Day { year: today.year, month, day };
    lemma_short_parts(m, p, d);
    lemma_short_dateish(m, p, d);
    lemma_no_word(s);
    lemma_trimmed(a, s, b);
    assert(text::is_digit(m[0]) && text::is_digit(d[0]));
    let parts = seq![m, d];
    assert(parts.drop_last() =~= seq![m]);
    assert(parts.drop_last().drop_last() =~= Seq::empty());
    reveal_with_fuel(date::counts_spec, 3);
    if then.is_real() {
        lemma_count(m, month);
        lemma_count(d, day);
        assert(date::counts_spec(parts)->0 =~= seq![month, day]);
    } else if let Some(n) = date::counts_spec(parts) {
        assert(n =~= seq![month, day]);
    }
}

/// A number that is typed is that day of this month.
pub proof fn a_typed_day_is_of_this_month(
    a: Seq<char>,
    d: Seq<char>,
    b: Seq<char>,
    day: int,
    today: Day,
)
    requires
        blank(a),
        blank(b),
        writes(d, day),
    ensures
        ({
            let then = Day { day, ..today };
            date::resolve_spec(a + d + b, today) == (if then.is_real() {
                Some(then)
            } else {
                None
            })
        }),
{
    let then = Day { day, ..today };
    lemma_no_sep(d);
    lemma_split_none(d, CharClass::DateSep);
    assert(text::is_digit(d[0]) && text::is_digit(d[d.len() - 1]));
    lemma_no_word(d);
    lemma_trimmed(a, d, b);
    let parts = seq![d];
    assert(parts.drop_last() =~= Seq::empty());
    reveal_with_fuel(date::counts_spec, 2);
    if then.is_real() {
        lemma_count(d, day);
        assert(date::counts_spec(parts)->0 =~= seq![day]);
    } else if let Some(n) = date::counts_spec(parts) {
        assert(n =~= seq![day]);
    }
}

/// Whether a text is a lower-case one, however it is capitalised.
pub open spec fn spelled(s: Seq<char>, word: Seq<char>) -> bool {
    s.len() == word.len() && forall|i: int|
        0 <= i < s.len() ==> #[trigger] s[i] == word[i] || ('A' <= s[i] && s[i] <= 'Z' && s[i]
            as int + 32 == word[i] as int)
}

proof fn lemma_spelled(s: Seq<char>, word: Seq<char>)
    requires
        spelled(s, word),
        forall|i: int| 0 <= i < word.len() ==> 'a' <= #[trigger] word[i] && word[i] <= 'z',
    ensures
        date::ascii_lower_spec(s) == word,
{
    let w = date::ascii_lower_spec(s);
    assert forall|i: int| 0 <= i < s.len() implies w[i] == word[i] by {
        assert(s[i] == word[i] || s[i] as int + 32 == word[i] as int);
        if s[i] != word[i] {
            assert((word[i] as int) as char == word[i]);
        }
    }
    assert(w =~= word);
}

proof fn lemma_word_trimmed(a: Seq<char>, s: Seq<char>, b: Seq<char>, word: Seq<char>)
    requires
        blank(a),
        blank(b),
        spelled(s, word),
        word.len() > 0,
        forall|i: int| 0 <= i < word.len() ==> 'a' <= #[trigger] word[i] && word[i] <= 'z',
    ensures
        text::trim_spec(a + s + b, CharClass::White) == s,
        date::ascii_lower_spec(s) == word,
{
    lemma_spelled(s, word);
    assert(s[0] == word[0] || s[0] as int + 32 == word[0] as int);
    let k = s.len() - 1;
    assert(s[k] == word[k] || s[k] as int + 32 == word[k] as int);
    lemma_trimmed(a, s, b);
}

/// Nothing typed means today, and so does the word, however it is capitalised.
pub proof fn nothing_typed_means_today(a: Seq<char>, s: Seq<char>, b: Seq<char>, today: Day)
    requires
        blank(a),
        blank(b),
        spelled(s, "today"@),
    ensures
        date::resolve_spec(a, today) == Some(today),
        date::resolve_spec(a + s + b, today) == Some(today),
{
    reveal_strlit("today");
    lemma_word_trimmed(a, s, b, "today"@);
    text::lemma_run_is(a, CharClass::White, true, a.len() as int);
    let none = a.skip(a.len() as int);
    text::lemma_run_back(none, CharClass::White, true);
}

/// `tomorrow` is the day with the next number, and `yesterday` the one with the
/// number before.
pub proof fn a_typed_word_is_a_day_from_today(
    a: Seq<char>,
    s: Seq<char>,
    b: Seq<char>,
    today: Day,
)
    requires
        blank(a),
        blank(b),
        today.is_real(),
        spelled(s, "tomorrow"@) || spelled(s, "yesterday"@),
    ensures
        ({
            let then = today.number() + if spelled(s, "tomorrow"@) {
                1int
            } else {
                -1
            };
            match date::resolve_spec(a + s + b, today) {
                Some(d) => d.is_real() && d.number() == then,
                None => forall|d: Day| d.is_real() ==> #[trigger] d.number() != then,
            }
        }),
{
    reveal_strlit("today");
    reveal_strlit("tomorrow");
    reveal_strlit("yesterday");
    neighbours_are_a_day_apart(today);
    let ahead = spelled(s, "tomorrow"@);
    if ahead {
        lemma_word_trimmed(a, s, b, "tomorrow"@);
    } else {
        lemma_word_trimmed(a, s, b, "yesterday"@);
        assert("yesterday"@.len() == 9 && "tomorrow"@.len() == 8);
    }
    let other = if ahead {
        today.next()
    } else {
        today.previous()
    };
    if !other.is_real() {
        assert forall|d: Day| d.is_real() implies #[trigger] d.number() != other.number() by {
            lemma_beyond(d, other);
        }
    }
}

/// No day of the calendar has the number of one beyond its ends.
proof fn lemma_beyond(d: Day, end: Day)
    requires
        d.is_real(),
        !date::in_calendar(end.year),
        1 <= end.month <= 12,
        1 <= end.day <= date::month_len(end.year, end.month),
    ensures
        d.number() != end.number(),
{
    lemma_months(d.year, d.month, 13);
    lemma_months(end.year, end.month, 13);
    lemma_months(d.year, 1, d.month);
    lemma_months(end.year, 1, end.month);
    lemma_year_len(d.year);
    lemma_year_len(end.year);
    if d.year < end.year {
        lemma_years(d.year + 1, end.year);
    } else {
        lemma_years(end.year + 1, d.year);
    }
}

// ---- what a journal says ----

/// A full date in a journal is that year, month and day, whatever separates
/// them and whatever secondary date stands behind it.
pub proof fn a_written_date_is_taken_as_written(
    y: Seq<char>,
    p: char,
    m: Seq<char>,
    q: char,
    d: Seq<char>,
    second: Seq<char>,
    day: Day,
    year: int,
)
    requires
        parts_dates(p),
        parts_dates(q),
        writes(y, day.year),
        writes(m, day.month),
        writes(d, day.day),
        second.len() == 0 || second[0] == '=',
    ensures
        date::parse_date_spec(full(y, p, m, q, d) + second, year) == (if day.is_real() {
            Some(day)
        } else {
            None
        }),
{
    let s = full(y, p, m, q, d);
    lemma_full_parts(y, p, m, q, d);
    lemma_full_dateish(y, p, m, q, d);
    lemma_primary(s, second);
    assert(text::is_digit(y[0]) && text::is_digit(m[0]) && text::is_digit(d[0]));
    if day.is_real() {
        lemma_count(y, day.year);
        lemma_count(m, day.month);
        lemma_count(d, day.day);
    }
}

/// A month and a day in a journal are of the year that is in effect.
pub proof fn a_written_month_and_day_are_of_the_year(
    m: Seq<char>,
    p: char,
    d: Seq<char>,
    second: Seq<char>,
    month: int,
    day: int,
    year: int,
)
    requires
        parts_dates(p),
        writes(m, month),
        writes(d, day),
        second.len() == 0 || second[0] == '=',
    ensures
        ({
            let then = Day { year, month, day };
            date::parse_date_spec(short(m, p, d) + second, year) == (if then.is_real() {
                Some(then)
            } else {
                None
            })
        }),
{
    let s = short(m, p, d);
    let then = Day { year, month, day };
    lemma_short_parts(m, p, d);
    lemma_short_dateish(m, p, d);
    lemma_primary(s, second);
    assert(text::is_digit(m[0]) && text::is_digit(d[0]));
    if then.is_real() {
        lemma_count(m, month);
        lemma_count(d, day);
    }
}

/// A secondary date is dropped.
pub proof fn lemma_primary(s: Seq<char>, second: Seq<char>)
    requires
        dateish(s),
        second.len() == 0 || second[0] == '=',
    ensures
        text::split_spec(s + second, CharClass::Is('='))[0] == s,
{
    let eq = CharClass::Is('=');
    assert forall|i: int| 0 <= i < s.len() implies !eq.has(#[trigger] s[i]) by {
        assert(text::is_digit(s[i]) || parts_dates(s[i]));
    }
    if second.len() == 0 {
        assert(s + second =~= s);
        lemma_split_none(s, eq);
    } else {
        assert(s + second =~= s + seq!['='] + second.skip(1));
        lemma_split_at(s, '=', second.skip(1), eq);
    }
}

/// The first word of a line that starts with a date is the date, with the
/// secondary one if there is one.
pub proof fn lemma_leading_word(s: Seq<char>, second: Seq<char>, rest: Seq<char>)
    requires
        dateish(s),
        forall|i: int| 0 <= i < second.len() ==> !text::is_white(#[trigger] second[i]),
        rest.len() == 0 || text::is_white(rest[0]),
    ensures
        text::words_spec(s + second + rest).len() > 0,
        text::words_spec(s + second + rest)[0] == s + second,
{
    let w = s + second;
    assert(tokens::is_word(w)) by {
        assert forall|i: int| 0 <= i < w.len() implies !text::is_white(#[trigger] w[i]) by {
            if i < s.len() {
                assert(w[i] == s[i]);
                assert(text::is_digit(s[i]) || parts_dates(s[i]));
            } else {
                assert(w[i] == second[i - s.len()]);
            }
        }
    }
    tokens::lemma_words_one(w);
    tokens::lemma_words_concat(w, rest);
}

/// What is typed with more than three parts is no date.
pub proof fn more_parts_than_three_are_no_date(
    y: Seq<char>,
    m: Seq<char>,
    d: Seq<char>,
    x: Seq<char>,
    p: char,
    today: Day,
)
    requires
        digits_only(y) && digits_only(m) && digits_only(d) && digits_only(x),
        parts_dates(p),
    ensures
        date::resolve_spec(full(y, p, m, p, d) + seq![p] + x, today) is None,
{
    let none = Seq::<char>::empty();
    let s = full(y, p, m, p, d) + seq![p] + x;
    let sep = CharClass::DateSep;
    lemma_no_sep(y);
    lemma_no_sep(m);
    lemma_no_sep(d);
    lemma_no_sep(x);
    lemma_split_none(x, sep);
    lemma_split_at(d, p, x, sep);
    lemma_split_at(m, p, d + seq![p] + x, sep);
    lemma_split_at(y, p, m + seq![p] + (d + seq![p] + x), sep);
    assert(s =~= y + seq![p] + (m + seq![p] + (d + seq![p] + x)));
    let parts = seq![y] + (seq![m] + (seq![d] + seq![x]));
    assert(text::split_spec(s, sep) == parts);
    assert(parts.len() == 4);
    lemma_full_dateish(y, p, m, p, d);
    let t = full(y, p, m, p, d);
    assert(dateish(s)) by {
        assert forall|i: int| 0 <= i < s.len() implies text::is_digit(#[trigger] s[i])
            || parts_dates(s[i]) by {
            if i < t.len() {
                assert(s[i] == t[i]);
                assert(text::is_digit(t[i]) || parts_dates(t[i]));
            } else if i > t.len() {
                assert(s[i] == x[i - t.len() - 1]);
            }
        }
        assert(s[0] == t[0]);
        assert(s.last() == x[x.len() - 1]);
    }
    lemma_no_word(s);
    lemma_trimmed(none, s, none);
    assert(none + s + none =~= s);
    lemma_counts_len(parts);
}

/// Whether a text is digits, and some.
pub open spec fn digits_only(s: Seq<char>) -> bool {
    s.len() > 0 && text::all_digits(s)
}

proof fn lemma_counts_len(parts: Seq<Seq<char>>)
    ensures
        date::counts_spec(parts) matches Some(n) ==> n.len() == parts.len(),
    decreases parts.len(),
{
    if parts.len() > 0 {
        lemma_counts_len(parts.drop_last());
    }
}

// ---- what is no date ----

/// What is no separator stands in one of the parts.
proof fn lemma_split_holds(s: Seq<char>, class: CharClass, i: int)
    requires
        0 <= i < s.len(),
        !class.has(s[i]),
    ensures
        exists|k: int|
            0 <= k < text::split_spec(s, class).len() && (#[trigger] text::split_spec(
                s,
                class,
            )[k]).contains(s[i]),
    decreases s.len(),
{
    let n = text::run_spec(s, class, false);
    text::lemma_run(s, class, false);
    let parts = text::split_spec(s, class);
    if n >= s.len() {
        assert(parts[0] == s);
        assert(s.contains(s[i]));
    } else if i < n {
        assert(parts[0] == s.take(n));
        assert(s.take(n)[i] == s[i]);
        assert(parts[0].contains(s[i]));
    } else {
        let rest = s.skip(n + 1);
        let more = text::split_spec(rest, class);
        assert(rest[i - n - 1] == s[i]);
        lemma_split_holds(rest, class, i - n - 1);
        let k = choose|k: int| 0 <= k < more.len() && (#[trigger] more[k]).contains(s[i]);
        assert(parts[k + 1] == more[k]);
        assert(parts[k + 1].contains(s[i]));
    }
}

proof fn lemma_no_counts(parts: Seq<Seq<char>>, k: int)
    requires
        0 <= k < parts.len(),
        text::count_upto(parts[k], u32::MAX as int) is None,
    ensures
        date::counts_spec(parts) is None,
    decreases parts.len(),
{
    if k < parts.len() - 1 {
        let f = parts.drop_last();
        assert(f[k] == parts[k]);
        lemma_no_counts(f, k);
    }
}

/// What a person types is a date only where it is one of the words or consists of
/// numbers: with any other character in it, it is none.
pub proof fn a_text_that_is_no_number_is_no_date(
    a: Seq<char>,
    s: Seq<char>,
    b: Seq<char>,
    i: int,
    today: Day,
)
    requires
        blank(a),
        blank(b),
        s.len() > 0,
        !text::is_white(s[0]),
        !text::is_white(s.last()),
        0 <= i < s.len(),
        !text::is_digit(s[i]) && !parts_dates(s[i]) && s[i] != '+',
        date::ascii_lower_spec(s) != "today"@,
        date::ascii_lower_spec(s) != "yesterday"@,
        date::ascii_lower_spec(s) != "tomorrow"@,
    ensures
        date::resolve_spec(a + s + b, today) is None,
{
    let class = CharClass::DateSep;
    lemma_trimmed(a, s, b);
    lemma_split_holds(s, class, i);
    let parts = text::split_spec(s, class);
    let k = choose|k: int| 0 <= k < parts.len() && (#[trigger] parts[k]).contains(s[i]);
    let p = parts[k];
    let j = choose|j: int| 0 <= j < p.len() && p[j] == s[i];
    assert(text::whole_number(p) is None) by {
        let signed = p.len() > 0 && CharClass::Sign.has(p[0]);
        let body = if signed {
            p.skip(1)
        } else {
            p
        };
        if body.len() > 0 && text::all_digits(body) {
            if signed {
                if j > 0 {
                    assert(body[j - 1] == p[j]);
                    assert(text::is_digit(body[j - 1]));
                }
            } else {
                assert(text::is_digit(body[j]));
            }
        }
    }
    lemma_no_counts(parts, k);
}

} // verus!
