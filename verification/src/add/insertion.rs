//! Where new transactions land in a file.

use vstd::prelude::*;
use crate::add::append;
use crate::add::filemap::{self, Span};
use crate::add::integrate::{self, Placement, Scopes};
use crate::add::parser;
use crate::add::replay;
use crate::add::scope::Rewrites;
use crate::add::write::{Insertion, NewTxn};
use crate::calendar;
use crate::date::{self, Day};
use crate::fmt;
use crate::fmt::laws;
use crate::fmt::reread;
use crate::lex;
use crate::text::{self, CharClass};
use crate::tokens;

verus! {

// ---- the place ----

/// Whether dated transactions stand in the order of their days.
pub open spec fn ascend(ts: Seq<Span>) -> bool {
    forall|i: int, j: int|
        0 <= i < j < ts.len() ==> ((#[trigger] ts[i]).date matches Some(a) ==> (
        #[trigger] ts[j]).date matches Some(b) ==> a.number() <= b.number())
}

/// The dates of a file exist.
proof fn lemma_real(ls: Seq<Seq<char>>, i: int, opaque: bool, year: Option<i32>, this_year: i32)
    requires
        0 <= i,
    ensures
        forall|k: int|
            0 <= k < filemap::spans_spec(ls, i, opaque, year, this_year).len() ==> ((
            #[trigger] filemap::spans_spec(ls, i, opaque, year, this_year)[k]).date matches Some(d)
                ==> d.is_real()),
    decreases ls.len() - i,
{
    if i < ls.len() {
        if opaque {
            lemma_real(ls, i + 1, !lex::closes_block_spec(ls[i]), year, this_year);
        } else if lex::opens_block_spec(ls[i]) {
            lemma_real(ls, i + 1, true, year, this_year);
        } else if lex::opens_txn_spec(ls[i]) {
            let end = filemap::run_end(ls, i + 1);
            filemap::lemma_run_end(ls, i + 1);
            lemma_real(ls, end, false, year, this_year);
            let rest = filemap::spans_spec(ls, end, false, year, this_year);
            let ss = filemap::spans_spec(ls, i, opaque, year, this_year);
            assert forall|k: int| 0 <= k < ss.len() implies ((#[trigger] ss[k]).date matches Some(
                d,
            ) ==> d.is_real()) by {
                if k > 0 {
                    assert(ss[k] == rest[k - 1]);
                }
            }
        } else {
            let y = match parser::year_directive_spec(ls[i]) {
                Some(y) => Some(y as i32),
                None => year,
            };
            lemma_real(ls, i + 1, false, y, this_year);
        }
    }
}

/// Where the last transaction that is not later ends.
proof fn lemma_last(ts: Seq<Span>, date: Day)
    requires
        date.is_real(),
        forall|k: int|
            0 <= k < ts.len() ==> ((#[trigger] ts[k]).date matches Some(d) ==> d.is_real()),
    ensures
        match integrate::end_of_last(ts, date) {
            None => forall|k: int|
                0 <= k < ts.len() ==> ((#[trigger] ts[k]).date matches Some(d) ==> d.number()
                    > date.number()),
            Some(at) => exists|k: int|
                {
                    &&& 0 <= k < ts.len()
                    &&& (#[trigger] ts[k]).end == at
                    &&& ts[k].date matches Some(d)
                    &&& d.number() <= date.number()
                    &&& forall|j: int|
                        k < j < ts.len() ==> ((#[trigger] ts[j]).date matches Some(e)
                            ==> e.number() > date.number())
                },
        },
    decreases ts.len(),
{
    if ts.len() > 0 {
        let f = ts.drop_last();
        let n = ts.len() - 1;
        assert forall|k: int| 0 <= k < f.len() implies ((#[trigger] f[k]).date matches Some(d)
            ==> d.is_real()) by {
            assert(f[k] == ts[k]);
        }
        lemma_last(f, date);
        if let Some(d) = ts[n].date {
            assert(d.is_real());
            calendar::days_are_in_order(d, date);
        }
        let sooner = ts[n].date matches Some(d) && d.number() <= date.number();
        if sooner {
            assert(ts[n].end == integrate::end_of_last(ts, date)->0);
        } else {
            match integrate::end_of_last(f, date) {
                None => {
                    assert forall|k: int| 0 <= k < ts.len() implies ((#[trigger] ts[k]).date
                        matches Some(d) ==> d.number() > date.number()) by {
                        if k < n {
                            assert(f[k] == ts[k]);
                        }
                    }
                },
                Some(at) => {
                    let k = choose|k: int|
                        {
                            &&& 0 <= k < f.len()
                            &&& (#[trigger] f[k]).end == at
                            &&& f[k].date matches Some(d)
                            &&& d.number() <= date.number()
                            &&& forall|j: int|
                                k < j < f.len() ==> ((#[trigger] f[j]).date matches Some(e)
                                    ==> e.number() > date.number())
                        };
                    assert(f[k] == ts[k]);
                    assert forall|j: int| k < j < ts.len() implies ((#[trigger] ts[j]).date
                        matches Some(e) ==> e.number() > date.number()) by {
                        if j < n {
                            assert(f[j] == ts[j]);
                        }
                    }
                },
            }
        }
    }
}

/// A new transaction goes between others, never into one: every transaction
/// from there on is later than it. In a file that is in order every one before
/// it is no later, so the file stays in order.
pub proof fn a_transaction_lands_among_its_days(
    ls: Seq<Seq<char>>,
    date: Day,
    this_year: i32,
)
    requires
        date.is_real(),
    ensures
        ({
            let ts = filemap::all_spans(ls, this_year);
            let at = integrate::insertion_index_spec(
                ls.len() as int,
                ts,
                date,
                Insertion::Chronological,
            );
            &&& 0 <= at <= ls.len()
            &&& forall|k: int|
                0 <= k < ts.len() ==> (#[trigger] ts[k]).end <= at || at <= ts[k].start
            &&& forall|k: int|
                0 <= k < ts.len() && (#[trigger] ts[k]).start >= at ==> (ts[k].date matches Some(d)
                    ==> d.number() > date.number())
            &&& ascend(ts) ==> forall|k: int|
                0 <= k < ts.len() && (#[trigger] ts[k]).end <= at ==> (ts[k].date matches Some(d)
                    ==> d.number() <= date.number())
            &&& ts.len() == 0 ==> at == ls.len()
            &&& ts.len() > 0 ==> exists|k: int|
                0 <= k < ts.len() && ((#[trigger] ts[k]).end == at || ts[k].start == at)
        }),
{
    let ts = filemap::all_spans(ls, this_year);
    let at = integrate::insertion_index_spec(
        ls.len() as int,
        ts,
        date,
        Insertion::Chronological,
    );
    filemap::transactions_stand_in_order(ls, this_year);
    lemma_real(ls, 0, false, None, this_year);
    lemma_last(ts, date);
    match integrate::end_of_last(ts, date) {
        None => {
            if ts.len() > 0 {
                assert(ts[0].start == at);
                assert forall|k: int| 0 <= k < ts.len() implies (#[trigger] ts[k]).end <= at || at
                    <= ts[k].start by {
                    if k > 0 {
                        assert(ts[0].end <= ts[k].start);
                    }
                }
            }
        },
        Some(_) => {
            let m = choose|k: int|
                {
                    &&& 0 <= k < ts.len()
                    &&& (#[trigger] ts[k]).end == at
                    &&& ts[k].date matches Some(d)
                    &&& d.number() <= date.number()
                    &&& forall|j: int|
                        k < j < ts.len() ==> ((#[trigger] ts[j]).date matches Some(e)
                            ==> e.number() > date.number())
                };
            assert(ts[m].end == at);
            assert forall|k: int| 0 <= k < ts.len() implies ((#[trigger] ts[k]).end <= at || at
                <= ts[k].start) && (ts[k].start >= at ==> k > m) && (ts[k].end <= at ==> k
                <= m) by {
                if k < m {
                    assert(ts[k].end <= ts[m].start);
                } else if k > m {
                    assert(ts[m].end <= ts[k].start);
                }
            }
            assert forall|k: int| 0 <= k < ts.len() && (#[trigger] ts[k]).end <= at && ascend(
                ts,
            ) implies (ts[k].date matches Some(d) ==> d.number() <= date.number()) by {
                if k < m {
                    assert(ts[m].date is Some);
                }
            }
        },
    }
}

/// A transaction that is appended goes behind everything.
pub proof fn an_appended_transaction_goes_last(count: int, ts: Seq<Span>, date: Day)
    ensures
        integrate::insertion_index_spec(count, ts, date, Insertion::Append) == count,
{
}

// ---- the file ----

/// What the lines before a point hold, and what the next one is read with.
pub open spec fn reach(
    ls: Seq<Seq<char>>,
    i: int,
    opaque: bool,
    year: Option<i32>,
    this_year: i32,
    at: int,
) -> (Seq<Span>, bool, Option<i32>)
    decreases ls.len() - i,
{
    if i < 0 || i >= at || i >= ls.len() {
        (Seq::empty(), opaque, year)
    } else if opaque {
        reach(ls, i + 1, !lex::closes_block_spec(ls[i]), year, this_year, at)
    } else if lex::opens_block_spec(ls[i]) {
        reach(ls, i + 1, true, year, this_year, at)
    } else if lex::opens_txn_spec(ls[i]) {
        let end = filemap::run_end(ls, i + 1);
        proof {
            filemap::lemma_run_end(ls, i + 1);
        }
        let date = date::parse_date_spec(
            filemap::first_word(ls[i]),
            (match year {
                Some(y) => y,
                None => this_year,
            }) as int,
        );
        let (more, o, y) = reach(ls, end, false, year, this_year, at);
        (seq![Span { start: i, end, date }] + more, o, y)
    } else {
        let next = match parser::year_directive_spec(ls[i]) {
            Some(y) => Some(y as i32),
            None => year,
        };
        reach(ls, i + 1, false, next, this_year, at)
    }
}

/// Whether a point is in no transaction.
pub open spec fn between(ts: Seq<Span>, at: int) -> bool {
    forall|k: int| 0 <= k < ts.len() ==> (#[trigger] ts[k]).end <= at || at <= ts[k].start
}

/// Whether a transaction starts or ends at a point.
pub open spec fn touches(ts: Seq<Span>, at: int) -> bool {
    exists|k: int| 0 <= k < ts.len() && ((#[trigger] ts[k]).end == at || ts[k].start == at)
}

proof fn lemma_run_same(a: Seq<Seq<char>>, b: Seq<Seq<char>>, i: int, at: int)
    requires
        0 <= i <= at <= a.len(),
        at <= b.len(),
        a.take(at) == b.take(at),
        filemap::run_end(a, i) <= at,
        at < b.len() ==> !lex::is_indented_spec(b[at]),
    ensures
        filemap::run_end(b, i) == filemap::run_end(a, i),
    decreases at - i,
{
    if i < at {
        assert(a.take(at)[i] == a[i]);
        assert(b.take(at)[i] == b[i]);
        if lex::is_indented_spec(a[i]) {
            lemma_run_same(a, b, i + 1, at);
        }
    } else {
        filemap::lemma_run_end(a, i);
    }
}

/// The transactions of a file with the same lines up to a point between two.
proof fn lemma_reach(
    a: Seq<Seq<char>>,
    b: Seq<Seq<char>>,
    i: int,
    opaque: bool,
    year: Option<i32>,
    this_year: i32,
    at: int,
)
    requires
        0 <= i <= at <= a.len(),
        at <= b.len(),
        a.take(at) == b.take(at),
        at < b.len() ==> !lex::is_indented_spec(b[at]),
        between(filemap::spans_spec(a, i, opaque, year, this_year), at),
    ensures
        ({
            let (ts, o, y) = reach(a, i, opaque, year, this_year, at);
            &&& filemap::spans_spec(b, i, opaque, year, this_year) == ts + filemap::spans_spec(
                b,
                at,
                o,
                y,
                this_year,
            )
            &&& touches(filemap::spans_spec(a, i, opaque, year, this_year), at) ==> !o
            &&& forall|k: int| 0 <= k < ts.len() ==> (#[trigger] ts[k]).end <= at
        }),
    decreases at - i,
{
    let ss = filemap::spans_spec(a, i, opaque, year, this_year);
    let (ts, o, y) = reach(a, i, opaque, year, this_year, at);
    let bs = filemap::spans_spec(b, i, opaque, year, this_year);
    if i == at {
        assert(ts + filemap::spans_spec(b, at, o, y, this_year) =~= bs);
        if touches(ss, at) && opaque {
            filemap::lemma_spans(a, i, opaque, year, this_year);
            if i < a.len() {
                filemap::lemma_spans(a, i + 1, !lex::closes_block_spec(a[i]), year, this_year);
            }
        }
        if touches(ss, at) {
            filemap::lemma_spans(a, i, opaque, year, this_year);
        }
    } else {
        assert(a.take(at)[i] == a[i]);
        assert(b.take(at)[i] == b[i]);
        if opaque {
            lemma_reach(a, b, i + 1, !lex::closes_block_spec(a[i]), year, this_year, at);
        } else if lex::opens_block_spec(a[i]) {
            lemma_reach(a, b, i + 1, true, year, this_year, at);
        } else if lex::opens_txn_spec(a[i]) {
            let end = filemap::run_end(a, i + 1);
            filemap::lemma_run_end(a, i + 1);
            let rest = filemap::spans_spec(a, end, false, year, this_year);
            assert(ss[0].start == i && ss[0].end == end);
            assert(end <= at);
            lemma_run_same(a, b, i + 1, at);
            assert forall|k: int| 0 <= k < rest.len() implies (#[trigger] rest[k]).end <= at || at
                <= rest[k].start by {
                assert(ss[k + 1] == rest[k]);
            }
            lemma_reach(a, b, end, false, year, this_year, at);
            let (more, _, _) = reach(a, end, false, year, this_year, at);
            assert(bs =~= ts + filemap::spans_spec(b, at, o, y, this_year));
            assert forall|k: int| 0 <= k < ts.len() implies (#[trigger] ts[k]).end <= at by {
                if k > 0 {
                    assert(ts[k] == more[k - 1]);
                }
            }
            if touches(ss, at) && end < at {
                let k = choose|k: int|
                    0 <= k < ss.len() && ((#[trigger] ss[k]).end == at || ss[k].start == at);
                assert(k > 0);
                assert(rest[k - 1] == ss[k]);
                assert(touches(rest, at));
            }
        } else {
            let next = match parser::year_directive_spec(a[i]) {
                Some(y) => Some(y as i32),
                None => year,
            };
            lemma_reach(a, b, i + 1, false, next, this_year, at);
        }
    }
}

/// The dates of transactions, in order.
pub open spec fn days(ts: Seq<Span>) -> Seq<Option<Day>> {
    ts.map_values(|t: Span| t.date)
}

proof fn lemma_run_moved(a: Seq<Seq<char>>, i: int, b: Seq<Seq<char>>, j: int)
    requires
        0 <= i <= a.len(),
        0 <= j <= b.len(),
        a.skip(i) == b.skip(j),
    ensures
        filemap::run_end(b, j) - j == filemap::run_end(a, i) - i,
    decreases a.len() - i,
{
    assert(a.skip(i).len() == a.len() - i && b.skip(j).len() == b.len() - j);
    if i < a.len() {
        assert(a.skip(i)[0] == a[i]);
        assert(b.skip(j)[0] == b[j]);
        assert(a.skip(i + 1) =~= a.skip(i).skip(1));
        assert(b.skip(j + 1) =~= b.skip(j).skip(1));
        lemma_run_moved(a, i + 1, b, j + 1);
    }
}

/// The same lines hold the same transactions wherever they stand.
proof fn lemma_days_moved(
    a: Seq<Seq<char>>,
    i: int,
    b: Seq<Seq<char>>,
    j: int,
    opaque: bool,
    year: Option<i32>,
    this_year: i32,
)
    requires
        0 <= i <= a.len(),
        0 <= j <= b.len(),
        a.skip(i) == b.skip(j),
    ensures
        days(filemap::spans_spec(a, i, opaque, year, this_year)) == days(
            filemap::spans_spec(b, j, opaque, year, this_year),
        ),
    decreases a.len() - i,
{
    assert(a.skip(i).len() == a.len() - i && b.skip(j).len() == b.len() - j);
    let x = filemap::spans_spec(a, i, opaque, year, this_year);
    let z = filemap::spans_spec(b, j, opaque, year, this_year);
    if i < a.len() {
        assert(a.skip(i)[0] == a[i]);
        assert(b.skip(j)[0] == b[j]);
        assert(a.skip(i + 1) =~= a.skip(i).skip(1));
        assert(b.skip(j + 1) =~= b.skip(j).skip(1));
        if opaque {
            lemma_days_moved(
                a,
                i + 1,
                b,
                j + 1,
                !lex::closes_block_spec(a[i]),
                year,
                this_year,
            );
        } else if lex::opens_block_spec(a[i]) {
            lemma_days_moved(a, i + 1, b, j + 1, true, year, this_year);
        } else if lex::opens_txn_spec(a[i]) {
            filemap::lemma_run_end(a, i + 1);
            filemap::lemma_run_end(b, j + 1);
            lemma_run_moved(a, i + 1, b, j + 1);
            let n = filemap::run_end(a, i + 1) - i;
            assert(a.skip(i + n) =~= a.skip(i).skip(n));
            assert(b.skip(j + n) =~= b.skip(j).skip(n));
            lemma_days_moved(a, i + n, b, j + n, false, year, this_year);
            let one = x[0].date;
            assert(days(x) =~= seq![one] + days(
                filemap::spans_spec(a, i + n, false, year, this_year),
            ));
            assert(days(z) =~= seq![one] + days(
                filemap::spans_spec(b, j + n, false, year, this_year),
            ));
        } else {
            let next = match parser::year_directive_spec(a[i]) {
                Some(y) => Some(y as i32),
                None => year,
            };
            lemma_days_moved(a, i + 1, b, j + 1, false, next, this_year);
        }
    } else {
        assert(days(x) =~= days(z));
    }
}

/// Whether lines are a transaction of a day: a header that starts with the day,
/// and indented lines.
pub open spec fn entry_of(block: Seq<Seq<char>>, date: Day) -> bool {
    &&& block.len() > 0
    &&& date.is_real()
    &&& lex::opens_txn_spec(block[0])
    &&& forall|year: int| #[trigger]
        date::parse_date_spec(filemap::first_word(block[0]), year) == Some(date)
    &&& forall|i: int| 1 <= i < block.len() ==> lex::is_indented_spec(#[trigger] block[i])
}

proof fn lemma_run_is(ls: Seq<Seq<char>>, i: int, end: int)
    requires
        0 <= i <= end <= ls.len(),
        forall|k: int| i <= k < end ==> lex::is_indented_spec(#[trigger] ls[k]),
        end < ls.len() ==> !lex::is_indented_spec(ls[end]),
    ensures
        filemap::run_end(ls, i) == end,
    decreases end - i,
{
    if i < end {
        assert(lex::is_indented_spec(ls[i]));
        lemma_run_is(ls, i + 1, end);
    }
}

/// A blank line is no transaction and no directive.
proof fn lemma_blank_span(ls: Seq<Seq<char>>, i: int, year: Option<i32>, this_year: i32)
    requires
        0 <= i < ls.len(),
        ls[i].len() == 0,
    ensures
        filemap::spans_spec(ls, i, false, year, this_year) == filemap::spans_spec(
            ls,
            i + 1,
            false,
            year,
            this_year,
        ),
{
    reveal_strlit("comment");
    reveal_strlit("Y");
    reveal_strlit("year");
    reread::lemma_rstrip(ls[i]);
    laws::lemma_no_directive(ls[i], "Y"@);
    laws::lemma_no_directive(ls[i], "year"@);
}

/// A transaction opens no `comment` block.
proof fn lemma_no_block(l: Seq<char>)
    requires
        lex::opens_txn_spec(l),
    ensures
        !lex::opens_block_spec(l),
{
    reveal_strlit("comment");
    reread::lemma_rstrip(l);
    if lex::opens_block_spec(l) {
        assert(lex::rstrip_spec(l)[0] == l[0]);
    }
}

/// The blank line that a block needs next to a line.
pub open spec fn gap_at(ls: Seq<Seq<char>>, i: int) -> Seq<Seq<char>> {
    if 0 <= i < ls.len() && !lex::is_blank_spec(ls[i]) {
        seq![Seq::<char>::empty()]
    } else {
        Seq::empty()
    }
}

/// Reading on from where a transaction was put in.
proof fn lemma_put_in(
    out: Seq<Seq<char>>,
    at: int,
    lead: Seq<Seq<char>>,
    block: Seq<Seq<char>>,
    trail: Seq<Seq<char>>,
    ls: Seq<Seq<char>>,
    date: Day,
    y: Option<i32>,
    this_year: i32,
)
    requires
        0 <= at <= ls.len(),
        entry_of(block, date),
        out == ls.take(at) + lead + block + trail + ls.skip(at),
        lead == Seq::<Seq<char>>::empty() || lead == seq![Seq::<char>::empty()],
        trail == Seq::<Seq<char>>::empty() || trail == seq![Seq::<char>::empty()],
        at < ls.len() ==> !lex::is_indented_spec(ls[at]),
    ensures
        days(filemap::spans_spec(out, at, false, y, this_year)) == seq![Some(date)] + days(
            filemap::spans_spec(ls, at, false, y, this_year),
        ),
{
    let h = at + lead.len();
    let e = h + block.len();
    let r = e + trail.len();
    assert(out.len() == r + (ls.len() - at));
    if lead.len() > 0 {
        assert(out[at] == lead[0]);
        lemma_blank_span(out, at, y, this_year);
    }
    assert(out[h] == block[0]);
    lemma_no_block(block[0]);
    assert forall|k: int| h + 1 <= k < e implies lex::is_indented_spec(#[trigger] out[k]) by {
        assert(out[k] == block[k - h]);
    }
    if e < out.len() {
        if trail.len() > 0 {
            assert(out[e] == trail[0]);
        } else {
            assert(out[e] == ls[at]);
        }
    }
    lemma_run_is(out, h + 1, e);
    let year = (match y {
        Some(y) => y,
        None => this_year,
    }) as int;
    assert(date::parse_date_spec(filemap::first_word(block[0]), year) == Some(date));
    let all = filemap::spans_spec(out, h, false, y, this_year);
    let tail = filemap::spans_spec(out, e, false, y, this_year);
    let new = Span { start: h, end: e, date: Some(date) };
    assert(all == seq![new] + tail);
    if trail.len() > 0 {
        assert(out[e] == trail[0]);
        lemma_blank_span(out, e, y, this_year);
    }
    assert(out.skip(r) =~= ls.skip(at));
    lemma_days_moved(out, r, ls, at, false, y, this_year);
    assert(days(all) =~= seq![Some(date)] + days(tail));
}

/// A file with a transaction put in at a point.
proof fn lemma_spliced(
    ls: Seq<Seq<char>>,
    at: int,
    block: Seq<Seq<char>>,
    date: Day,
    this_year: i32,
)
    requires
        0 <= at <= ls.len(),
        entry_of(block, date),
        between(filemap::all_spans(ls, this_year), at),
        at < ls.len() ==> !lex::is_indented_spec(ls[at]),
        at < ls.len() ==> touches(filemap::all_spans(ls, this_year), at),
    ensures
        ({
            let (before, o, y) = reach(ls, 0, false, None, this_year, at);
            let after = filemap::spans_spec(ls, at, o, y, this_year);
            let out = integrate::splice_spec(ls, at, block);
            &&& filemap::all_spans(ls, this_year) == before + after
            &&& o ==> at == ls.len()
            &&& touches(filemap::all_spans(ls, this_year), at) ==> !o
            &&& !o ==> days(filemap::all_spans(out, this_year)) == days(before) + seq![
                Some(date),
            ] + days(after)
            &&& o ==> days(filemap::all_spans(out, this_year)) == days(before) + days(
                filemap::spans_spec(out, at, true, y, this_year),
            )
            &&& forall|k: int| 0 <= k < before.len() ==> (#[trigger] before[k]).end <= at
            &&& forall|k: int| 0 <= k < after.len() ==> at <= (#[trigger] after[k]).start
        }),
{
    let (before, o, y) = reach(ls, 0, false, None, this_year, at);
    let after = filemap::spans_spec(ls, at, o, y, this_year);
    let out = integrate::splice_spec(ls, at, block);
    let lead = gap_at(ls, at - 1);
    let trail = gap_at(ls, at);
    assert(out =~= ls.take(at) + lead + block + trail + ls.skip(at));
    assert(out.take(at) =~= ls.take(at));
    assert(at < out.len());
    assert(!lex::is_indented_spec(out[at])) by {
        if lead.len() > 0 {
            assert(out[at] == lead[0]);
        } else {
            assert(out[at] == block[0]);
        }
    }
    lemma_reach(ls, ls, 0, false, None, this_year, at);
    lemma_reach(ls, out, 0, false, None, this_year, at);
    let all = filemap::spans_spec(out, at, o, y, this_year);
    assert(days(before + all) =~= days(before) + days(all));
    filemap::lemma_spans(ls, at, o, y, this_year);
    if !o {
        lemma_put_in(out, at, lead, block, trail, ls, date, y, this_year);
        assert(days(before) + (seq![Some(date)] + days(after)) =~= days(before) + seq![
            Some(date),
        ] + days(after));
    }
}

/// The same order, of dates alone.
pub open spec fn ascend_days(ds: Seq<Option<Day>>) -> bool {
    forall|i: int, j: int|
        0 <= i < j < ds.len() ==> ((#[trigger] ds[i]) matches Some(a) ==> (
        #[trigger] ds[j]) matches Some(b) ==> a.number() <= b.number())
}

pub proof fn lemma_ascend(ts: Seq<Span>)
    ensures
        ascend(ts) == ascend_days(days(ts)),
{
    let ds = days(ts);
    if ascend(ts) {
        assert forall|i: int, j: int| 0 <= i < j < ds.len() implies ((#[trigger] ds[i])
            matches Some(a) ==> (#[trigger] ds[j]) matches Some(b) ==> a.number()
            <= b.number()) by {
            assert(ds[i] == ts[i].date && ds[j] == ts[j].date);
        }
    }
    if ascend_days(ds) {
        assert forall|i: int, j: int| 0 <= i < j < ts.len() implies ((#[trigger] ts[i]).date
            matches Some(a) ==> (#[trigger] ts[j]).date matches Some(b) ==> a.number()
            <= b.number()) by {
            assert(ds[i] == ts[i].date && ds[j] == ts[j].date);
        }
    }
}

/// The line at which a transaction ends is not indented.
proof fn lemma_end_line(
    ls: Seq<Seq<char>>,
    i: int,
    opaque: bool,
    year: Option<i32>,
    this_year: i32,
    at: int,
)
    requires
        0 <= i,
        touches(filemap::spans_spec(ls, i, opaque, year, this_year), at),
        at < ls.len(),
    ensures
        0 <= at,
        !lex::is_indented_spec(ls[at]),
    decreases ls.len() - i,
{
    let ss = filemap::spans_spec(ls, i, opaque, year, this_year);
    filemap::lemma_spans(ls, i, opaque, year, this_year);
    let k = choose|k: int|
        0 <= k < ss.len() && ((#[trigger] ss[k]).end == at || ss[k].start == at);
    assert(0 <= ss[k].start);
    if i < ls.len() {
        if opaque {
            lemma_end_line(ls, i + 1, !lex::closes_block_spec(ls[i]), year, this_year, at);
        } else if lex::opens_block_spec(ls[i]) {
            lemma_end_line(ls, i + 1, true, year, this_year, at);
        } else if lex::opens_txn_spec(ls[i]) {
            let end = filemap::run_end(ls, i + 1);
            filemap::lemma_run_end(ls, i + 1);
            let rest = filemap::spans_spec(ls, end, false, year, this_year);
            if k > 0 {
                assert(rest[k - 1] == ss[k]);
                assert(touches(rest, at));
                lemma_end_line(ls, end, false, year, this_year, at);
            } else {
                lemma_run_stops(ls, i + 1);
                if at == i {
                    assert(!text::is_white(ls[i][0]));
                }
            }
        } else {
            let next = match parser::year_directive_spec(ls[i]) {
                Some(y) => Some(y as i32),
                None => year,
            };
            lemma_end_line(ls, i + 1, false, next, this_year, at);
        }
    }
}

pub proof fn lemma_run_stops(ls: Seq<Seq<char>>, i: int)
    requires
        0 <= i <= ls.len(),
    ensures
        filemap::run_end(ls, i) < ls.len() ==> !lex::is_indented_spec(
            ls[filemap::run_end(ls, i)],
        ),
    decreases ls.len() - i,
{
    if i < ls.len() && lex::is_indented_spec(ls[i]) {
        lemma_run_stops(ls, i + 1);
    }
}

/// In an open `comment` block nothing is a transaction.
proof fn lemma_swallowed(
    ls: Seq<Seq<char>>,
    i: int,
    year: Option<i32>,
    this_year: i32,
)
    requires
        0 <= i <= ls.len(),
        forall|k: int| i <= k < ls.len() ==> !lex::closes_block_spec(#[trigger] ls[k]),
    ensures
        filemap::spans_spec(ls, i, true, year, this_year).len() == 0,
    decreases ls.len() - i,
{
    if i < ls.len() {
        lemma_swallowed(ls, i + 1, year, this_year);
    }
}

/// No line of a transaction closes a `comment` block.
proof fn lemma_no_close(block: Seq<Seq<char>>, date: Day)
    requires
        entry_of(block, date),
    ensures
        forall|i: int| 0 <= i < block.len() ==> !lex::closes_block_spec(#[trigger] block[i]),
{
    reveal_strlit("end comment");
    assert forall|i: int| 0 <= i < block.len() implies !lex::closes_block_spec(
        #[trigger] block[i],
    ) by {
        let l = block[i];
        reread::lemma_rstrip(l);
        if lex::closes_block_spec(l) {
            assert(lex::rstrip_spec(l)[0] == l[0]);
        }
        if i > 0 {
            assert(lex::is_indented_spec(block[i]));
        }
    }
}

/// A file in the order of its days is still in that order with a transaction
/// put in chronologically, and the transaction is one of the file: between
/// those that are not later and those that are. An open `comment` block at the
/// end of a file without transactions swallows it.
pub proof fn chronological_insertion_keeps_the_order(
    ls: Seq<Seq<char>>,
    block: Seq<Seq<char>>,
    date: Day,
    this_year: i32,
)
    requires
        ascend(filemap::all_spans(ls, this_year)),
        entry_of(block, date),
    ensures
        ({
            let ts = filemap::all_spans(ls, this_year);
            let at = integrate::insertion_index_spec(
                ls.len() as int,
                ts,
                date,
                Insertion::Chronological,
            );
            let out = filemap::all_spans(integrate::splice_spec(ls, at, block), this_year);
            &&& ascend(out)
            &&& ts.len() > 0 ==> exists|n: int|
                0 <= n <= ts.len() && days(out) == #[trigger] days(ts).insert(n, Some(date))
        }),
{
    let ts = filemap::all_spans(ls, this_year);
    let at = integrate::insertion_index_spec(
        ls.len() as int,
        ts,
        date,
        Insertion::Chronological,
    );
    a_transaction_lands_among_its_days(ls, date, this_year);
    assert(between(ts, at));
    assert(ts.len() > 0 ==> touches(ts, at));
    if at < ls.len() {
        lemma_end_line(ls, 0, false, None, this_year, at);
    }
    lemma_spliced(ls, at, block, date, this_year);
    let (before, o, y) = reach(ls, 0, false, None, this_year, at);
    let after = filemap::spans_spec(ls, at, o, y, this_year);
    let lines = integrate::splice_spec(ls, at, block);
    let out = filemap::all_spans(lines, this_year);
    let n = before.len() as int;
    lemma_ascend(ts);
    lemma_ascend(out);
    assert(days(ts) =~= days(before) + days(after));
    if o {
        assert(ts.len() == 0);
        let lead = gap_at(ls, at - 1);
        lemma_no_close(block, date);
        assert(lines =~= ls + lead + block);
        assert forall|k: int| at <= k < lines.len() implies !lex::closes_block_spec(
            #[trigger] lines[k],
        ) by {
            if k < at + lead.len() {
                assert(lines[k] == lead[0]);
                reveal_strlit("end comment");
                reread::lemma_rstrip(lines[k]);
            } else {
                assert(lines[k] == block[k - at - lead.len()]);
            }
        }
        lemma_swallowed(lines, at, y, this_year);
        assert(days(out).len() == 0);
    } else {
        let ds = days(out);
        assert(ds =~= days(ts).insert(n, Some(date)));
        assert forall|i: int, j: int| 0 <= i < j < ds.len() implies ((#[trigger] ds[i])
            matches Some(a) ==> (#[trigger] ds[j]) matches Some(b) ==> a.number()
            <= b.number()) by {
            if i < n {
                assert(ts[i] == before[i]);
                assert(ds[i] == days(ts)[i]);
            } else if i > n {
                assert(ds[i] == days(ts)[i - 1]);
            }
            if j < n {
                assert(ds[j] == days(ts)[j]);
            } else if j > n {
                assert(ts[j - 1] == after[j - 1 - n]);
                assert(ds[j] == days(ts)[j - 1]);
            }
        }
    }
}

// ---- writing ----

/// A header starts with its date.
proof fn lemma_header(t: NewTxn)
    requires
        t.date.is_real(),
        0 <= t.date.year <= 9999,
    ensures
        lex::opens_txn_spec(t.header()),
        filemap::first_word(t.header()) == t.date.text(),
        forall|year: int| #[trigger]
            date::parse_date_spec(filemap::first_word(t.header()), year) == Some(t.date),
{
    reveal_strlit(" ");
    reveal_strlit("  ");
    reveal_strlit("  ; ");
    let d = t.date.text();
    let s = d + " "@ + t.description;
    let h = t.header();
    let suffix = crate::add::write::comment_suffix_spec(t.comment);
    replay::lemma_date_back(t.date, 0);
    let n = text::run_back_spec(s, CharClass::White, true);
    text::lemma_run_back(s, CharClass::White, true);
    let r = text::trim_end_spec(s, CharClass::White);
    let k = d.len() as int;
    assert(s[k - 1] == d[k - 1]);
    assert(r.len() >= k) by {
        if s.len() - n < k {
            assert(CharClass::White.has(s[k - 1]));
        }
    }
    let after = h.skip(k);
    assert(h =~= d + after) by {
        assert forall|i: int| 0 <= i < k implies h[i] == d[i] by {
            assert(h[i] == r[i] && r[i] == s[i]);
        }
    }
    assert(after.len() == 0 || text::is_white(after[0])) by {
        if after.len() > 0 {
            if r.len() > k {
                assert(after[0] == s[k]);
            } else {
                assert(after[0] == suffix[0]);
            }
        }
    }
    tokens::lemma_words_one(d);
    tokens::lemma_words_concat(d, after);
    assert(h[0] == d[0]);
    assert forall|year: int| #[trigger]
        date::parse_date_spec(filemap::first_word(h), year) == Some(t.date) by {
        replay::lemma_date_back(t.date, year);
    }
}

/// Whether what is placed is whole: no line is broken in two, and every posting
/// has an account.
pub open spec fn whole(p: Placement) -> bool {
    forall|m: int, i: int|
        0 <= m < p.placed.len() && 0 <= i < p.placed[m].raw.len() ==> !(
        #[trigger] p.placed[m].raw[i]).contains('\n') && (i > 0 ==> lex::is_indented_spec(
            p.placed[m].raw[i],
        ))
}

/// Whether the date of a transaction is written with four digits.
pub open spec fn four_digits(t: NewTxn) -> bool {
    t.date.is_real() && 0 <= t.date.year <= 9999
}

pub proof fn lemma_placing(
    ls: Seq<Seq<char>>,
    txns: Seq<NewTxn>,
    scopes: Scopes,
    this_year: i32,
)
    requires
        ascend(filemap::all_spans(ls, this_year)),
        forall|i: int| 0 <= i < ls.len() ==> !(#[trigger] ls[i]).contains('\n'),
        forall|i: int| 0 <= i < txns.len() ==> four_digits(#[trigger] txns[i]),
        whole(Placement::over(ls, txns, Insertion::Chronological, scopes, this_year)),
    ensures
        ({
            let p = Placement::over(ls, txns, Insertion::Chronological, scopes, this_year);
            &&& forall|i: int| 0 <= i < p.lines.len() ==> !(#[trigger] p.lines[i]).contains('\n')
            &&& ascend(filemap::all_spans(p.lines, this_year))
            &&& integrate::spliced(ls, integrate::raw_blocks(p.placed)) == p.lines
        }),
    decreases txns.len(),
{
    let p = Placement::over(ls, txns, Insertion::Chronological, scopes, this_year);
    if txns.len() == 0 {
        assert(integrate::raw_blocks(p.placed) =~= Seq::empty());
    } else {
        let f = txns.drop_last();
        let t = txns[txns.len() - 1];
        let q = Placement::over(ls, f, Insertion::Chronological, scopes, this_year);
        let now = fmt::lines_spec(fmt::unlines_spec(q.lines));
        let at = integrate::insertion_index_spec(
            now.len() as int,
            filemap::all_spans(now, this_year),
            t.date,
            Insertion::Chronological,
        );
        let scope = scopes.at(integrate::next_original(q.origins, at));
        assert forall|i: int| 0 <= i < f.len() implies four_digits(#[trigger] f[i]) by {
            assert(f[i] == txns[i]);
        }
        assert(four_digits(txns[txns.len() - 1]));
        assert(whole(q)) by {
            assert forall|m: int, i: int|
                0 <= m < q.placed.len() && 0 <= i < q.placed[m].raw.len() implies !(
            #[trigger] q.placed[m].raw[i]).contains('\n') && (i > 0 ==> lex::is_indented_spec(
                q.placed[m].raw[i],
            )) by {
                assert(p.placed[m].raw[i] == q.placed[m].raw[i]);
            }
        }
        lemma_placing(ls, f, scopes, this_year);
        tokens::lines_come_back(q.lines);
        match t.raw_lines(scope) {
            Err(_) => {
                assert(p.lines == q.lines && p.placed == q.placed);
            },
            Ok(raw) => {
                let new = integrate::Place { at, raw, warning: integrate::scope_note(scope) };
                assert(p.placed == q.placed.push(new));
                lemma_placed_one(ls, q, p, new, t, scope, this_year);
            },
        }
    }
}

/// One transaction more.
proof fn lemma_placed_one(
    ls: Seq<Seq<char>>,
    q: Placement,
    p: Placement,
    new: integrate::Place,
    t: NewTxn,
    scope: Rewrites,
    this_year: i32,
)
    requires
        forall|i: int| 0 <= i < q.lines.len() ==> !(#[trigger] q.lines[i]).contains('\n'),
        ascend(filemap::all_spans(q.lines, this_year)),
        integrate::spliced(ls, integrate::raw_blocks(q.placed)) == q.lines,
        whole(p),
        four_digits(t),
        t.raw_lines(scope) == Ok::<Seq<Seq<char>>, Seq<Seq<char>>>(new.raw),
        new.at == integrate::insertion_index_spec(
            q.lines.len() as int,
            filemap::all_spans(q.lines, this_year),
            t.date,
            Insertion::Chronological,
        ),
        p.placed == q.placed.push(new),
        p.lines == integrate::splice_spec(q.lines, new.at, new.raw),
    ensures
        forall|i: int| 0 <= i < p.lines.len() ==> !(#[trigger] p.lines[i]).contains('\n'),
        ascend(filemap::all_spans(p.lines, this_year)),
        integrate::spliced(ls, integrate::raw_blocks(p.placed)) == p.lines,
{
    let raw = new.raw;
    let n = q.placed.len() as int;
    lemma_header(t);
    assert(raw[0] == t.header());
    assert(entry_of(raw, t.date)) by {
        assert forall|i: int| 1 <= i < raw.len() implies lex::is_indented_spec(
            #[trigger] raw[i],
        ) by {
            assert(p.placed[n].raw[i] == raw[i]);
        }
    }
    chronological_insertion_keeps_the_order(q.lines, raw, t.date, this_year);
    a_transaction_lands_among_its_days(q.lines, t.date, this_year);
    let at = new.at;
    let lead = gap_at(q.lines, at - 1);
    let trail = gap_at(q.lines, at);
    let out = p.lines;
    assert(out =~= q.lines.take(at) + lead + raw + trail + q.lines.skip(at));
    assert forall|i: int| 0 <= i < out.len() implies !(#[trigger] out[i]).contains('\n') by {
        let h = at + lead.len();
        let e = h + raw.len();
        let r = e + trail.len();
        if i < at {
            assert(out[i] == q.lines[i]);
        } else if i < h {
            assert(out[i] == lead[0]);
        } else if i < e {
            assert(out[i] == raw[i - h]);
            assert(p.placed[n].raw[i - h] == raw[i - h]);
        } else if i < r {
            assert(out[i] == trail[0]);
        } else {
            assert(out[i] == q.lines[at + (i - r)]);
        }
    }
    assert(integrate::raw_blocks(p.placed).drop_last() =~= integrate::raw_blocks(q.placed));
    assert(integrate::raw_blocks(p.placed).last() == (at, raw));
}

/// Transactions that are written chronologically into a file in the order of
/// its days leave it in that order, however many there are and in whatever
/// order they come.
pub proof fn writing_chronologically_keeps_the_order(
    src: Seq<char>,
    txns: Seq<NewTxn>,
    scopes: Scopes,
    this_year: i32,
)
    requires
        ascend(filemap::all_spans(fmt::lines_spec(src), this_year)),
        forall|i: int| 0 <= i < txns.len() ==> four_digits(#[trigger] txns[i]),
        whole(
            Placement::over(
                fmt::lines_spec(src),
                txns,
                Insertion::Chronological,
                scopes,
                this_year,
            ),
        ),
    ensures
        ascend(
            filemap::all_spans(
                fmt::lines_spec(
                    append::joined_spec(src, txns, Insertion::Chronological, scopes, this_year),
                ),
                this_year,
            ),
        ),
{
    let ls = fmt::lines_spec(src);
    let p = Placement::over(ls, txns, Insertion::Chronological, scopes, this_year);
    tokens::lemma_lines_hold_no_newline(src);
    lemma_placing(ls, txns, scopes, this_year);
    tokens::lines_come_back(p.lines);
}

/// A block that is put into lines stands between those before and those behind
/// the place, with no more than one blank line on either side, and one exactly
/// where the neighbour is not blank. No line is lost.
pub proof fn a_block_is_put_between_lines(ls: Seq<Seq<char>>, at: int, block: Seq<Seq<char>>)
    requires
        0 <= at <= ls.len(),
    ensures
        integrate::splice_spec(ls, at, block) == ls.take(at) + (if at > 0 && !lex::is_blank_spec(
            ls[at - 1],
        ) {
            seq![Seq::<char>::empty()]
        } else {
            Seq::empty()
        }) + block + (if at < ls.len() && !lex::is_blank_spec(ls[at]) {
            seq![Seq::<char>::empty()]
        } else {
            Seq::empty()
        }) + ls.skip(at),
{
}

/// A transaction is spelled for the place where it lands: by what rewrites
/// account names at the line that it is put before, or at the end of the file.
pub proof fn a_transaction_is_spelled_for_its_place(
    ls: Seq<Seq<char>>,
    t: NewTxn,
    insertion: Insertion,
    scopes: Scopes,
    this_year: i32,
)
    requires
        forall|i: int| 0 <= i < ls.len() ==> !(#[trigger] ls[i]).contains('\n'),
        t.date.is_real(),
    ensures
        ({
            let at = integrate::insertion_index_spec(
                ls.len() as int,
                filemap::all_spans(ls, this_year),
                t.date,
                insertion,
            );
            let scope = if at < ls.len() {
                scopes.at(Some(at))
            } else {
                scopes.at_eof
            };
            let p = Placement::over(ls, seq![t], insertion, scopes, this_year);
            match t.raw_lines(scope) {
                Ok(raw) => p.placed.len() == 1 && p.placed[0].raw == raw && p.placed[0].at == at
                    && p.lines == integrate::splice_spec(ls, at, raw) && p.refusals.len() == 0,
                Err(names) => p.placed.len() == 0 && p.lines == ls,
            }
        }),
{
    let one = seq![t];
    assert(one.drop_last() =~= Seq::empty());
    assert(one.last() == t);
    let q = Placement::over(ls, one.drop_last(), insertion, scopes, this_year);
    assert(q == Placement::start(ls));
    tokens::lines_come_back(ls);
    a_transaction_lands_among_its_days(ls, t.date, this_year);
    let at = integrate::insertion_index_spec(
        ls.len() as int,
        filemap::all_spans(ls, this_year),
        t.date,
        insertion,
    );
    let first = integrate::next_original(q.origins, at);
    assert(q.origins.len() == ls.len());
    if at < ls.len() {
        assert(q.origins[at] == Some(at));
        assert(first == Some(at));
    } else {
        assert(first is None);
    }
}

} // verus!
