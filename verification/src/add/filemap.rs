//! The write-target file map: raw text plus the positions the write path
//! needs. Built for one file only — the file we will modify.

use vstd::prelude::*;
use vstd::string::*;
use crate::add::parser;
use crate::amount::{AmountCtx, Ctx};
use crate::date::{self, Date, Day};
use crate::fmt;
use crate::fmt::tree;
use crate::lex;
use crate::text;

verus! {

/// What a [`TxnSpan`] says.
#[verifier::ext_equal]
pub struct Span {
    pub start: int,
    pub end: int,
    pub date: Option<Day>,
}

/// What a [`FileMap`] says.
#[verifier::ext_equal]
pub struct Mapped {
    pub lines: Seq<Seq<char>>,
    pub transactions: Seq<Span>,
    pub formatted: bool,
    pub acc_w: nat,
    pub num_w: nat,
}

/// One transaction's location within the write-target file.
#[derive(Debug, Clone, Copy, PartialEq, Eq, Structural)]
pub struct TxnSpan {
    /// 0-based first line (the header).
    pub start: usize,
    /// 0-based line just past the posting run.
    pub end: usize,
    /// The header's primary date, if it parses.
    pub date: Option<Date>,
}

impl View for TxnSpan {
    type V = Span;

    open spec fn view(&self) -> Span {
        Span { start: self.start as int, end: self.end as int, date: date::opt_day(self.date) }
    }
}

pub open spec fn spans_view(v: Seq<TxnSpan>) -> Seq<Span> {
    v.map_values(|s: TxnSpan| s@)
}

/// The write-target file map.
#[derive(Debug)]
pub struct FileMap {
    /// The file's lines, verbatim.
    pub lines: Vec<String>,
    /// Transactions in the file: 0-based line range `[start, end)` (header
    /// plus posting run) and the header's date, when it parses.
    pub transactions: Vec<TxnSpan>,
    /// Whether the file is already a fixed point of `fmt`.
    pub formatted: bool,
    /// File-wide alignment widths from `fmt`.
    pub acc_w: usize,
    /// See `acc_w`.
    pub num_w: usize,
}

impl View for FileMap {
    type V = Mapped;

    open spec fn view(&self) -> Mapped {
        Mapped {
            lines: text::texts(self.lines@),
            transactions: spans_view(self.transactions@),
            formatted: self.formatted,
            acc_w: self.acc_w as nat,
            num_w: self.num_w as nat,
        }
    }
}

/// The indented lines that follow a line.
pub open spec fn run_end(ls: Seq<Seq<char>>, i: int) -> int
    decreases ls.len() - i,
{
    if 0 <= i < ls.len() && lex::is_indented_spec(ls[i]) {
        run_end(ls, i + 1)
    } else {
        i
    }
}

/// The first word of a line.
pub open spec fn first_word(line: Seq<char>) -> Seq<char> {
    let words = text::words_spec(line);
    if words.len() == 0 {
        Seq::empty()
    } else {
        words[0]
    }
}

/// The transactions from a line on. A `comment` block is opaque, and a partial
/// date takes the last `Y` directive's year, else `this_year`.
pub open spec fn spans_spec(
    ls: Seq<Seq<char>>,
    i: int,
    opaque: bool,
    year: Option<i32>,
    this_year: i32,
) -> Seq<Span>
    decreases ls.len() - i,
{
    if i < 0 || i >= ls.len() {
        Seq::empty()
    } else if opaque {
        spans_spec(ls, i + 1, !lex::closes_block_spec(ls[i]), year, this_year)
    } else if lex::opens_block_spec(ls[i]) {
        spans_spec(ls, i + 1, true, year, this_year)
    } else if lex::opens_txn_spec(ls[i]) {
        let end = run_end(ls, i + 1);
        proof {
            lemma_run_end(ls, i + 1);
        }
        let date = date::parse_date_spec(
            first_word(ls[i]),
            (match year {
                Some(y) => y,
                None => this_year,
            }) as int,
        );
        seq![Span { start: i, end, date }] + spans_spec(ls, end, false, year, this_year)
    } else {
        spans_spec(
            ls,
            i + 1,
            false,
            match parser::year_directive_spec(ls[i]) {
                Some(y) => Some(y as i32),
                None => year,
            },
            this_year,
        )
    }
}

pub proof fn lemma_run_end(ls: Seq<Seq<char>>, i: int)
    requires
        0 <= i <= ls.len(),
    ensures
        i <= run_end(ls, i) <= ls.len(),
    decreases ls.len() - i,
{
    if i < ls.len() && lex::is_indented_spec(ls[i]) {
        lemma_run_end(ls, i + 1);
    }
}

/// All transactions of a file.
pub open spec fn all_spans(ls: Seq<Seq<char>>, this_year: i32) -> Seq<Span> {
    spans_spec(ls, 0, false, None, this_year)
}

/// The map of a file.
pub open spec fn map_spec(
    src: Seq<char>,
    inherited: Seq<(usize, Ctx)>,
    this_year: i32,
) -> Mapped {
    let ls = fmt::lines_spec(src);
    let w = tree::widths_at_spec(ls, inherited);
    Mapped {
        lines: ls,
        transactions: all_spans(ls, this_year),
        formatted: tree::format_at_spec(
            src,
            inherited,
            fmt::Options { sort: false, explicit: false },
        ) == src,
        acc_w: w.0,
        num_w: w.1,
    }
}

/// The dates of the transactions that have one.
pub open spec fn dates_spec(ts: Seq<Span>) -> Seq<Day>
    decreases ts.len(),
{
    if ts.len() == 0 {
        Seq::empty()
    } else {
        match ts.last().date {
            Some(d) => dates_spec(ts.drop_last()).push(d),
            None => dates_spec(ts.drop_last()),
        }
    }
}

/// Whether no date is before the one ahead of it.
pub open spec fn ascending(ds: Seq<Day>) -> bool
    decreases ds.len(),
{
    ds.len() < 2 || (ascending(ds.drop_last()) && ds[ds.len() - 2].le(ds.last()))
}

/// All transactions of a file.
pub fn txn_spans(ls: &[&str], this_year: i32) -> (r: Vec<TxnSpan>)
    ensures
        spans_view(r@) == all_spans(text::strs(ls@), this_year),
{
    let ghost all = text::strs(ls@);
    let count: usize = ls.len();
    let mut out: Vec<TxnSpan> = Vec::new();
    let mut i: usize = 0;
    // A `comment` block is opaque: a date-looking line inside it is prose,
    // not a transaction, and must not become an insertion point.
    let mut opaque = false;
    // The file's own `Y` directives, so a partial-dated transaction still
    // gets a date for chronological insertion and the sortedness check.
    let mut year: Option<i32> = None;
    assert(spans_view(out@) + spans_spec(all, 0, false, None, this_year) =~= all_spans(
        all,
        this_year,
    ));
    while i < count
        invariant
            i <= count,
            count == ls@.len(),
            all == text::strs(ls@),
            spans_view(out@) + spans_spec(all, i as int, opaque, year, this_year) == all_spans(
                all,
                this_year,
            ),
        decreases count - i,
    {
        let line = ls[i];
        assert(all[i as int] == line@);
        let ghost before = spans_view(out@);
        let start: usize = i;
        i = i + 1;
        if opaque {
            opaque = !lex::closes_comment_block(line);
        } else if lex::opens_comment_block(line) {
            opaque = true;
        } else if lex::opens_txn(line) {
            proof {
                lemma_run_end(all, i as int);
            }
            while i < count && lex::is_indented_non_blank(ls[i])
                invariant
                    start < i <= count,
                    count == ls@.len(),
                    all == text::strs(ls@),
                    run_end(all, start + 1) == run_end(all, i as int),
                decreases count - i,
            {
                assert(all[i as int] == ls@[i as int]@);
                i = i + 1;
            }
            assert(i < count ==> all[i as int] == ls@[i as int]@);
            assert(run_end(all, start + 1) == i);
            let words = text::words(line);
            proof {
                reveal_strlit("");
                assert(""@ =~= Seq::<char>::empty());
                assert(text::strs(words@).len() == words@.len());
            }
            let tok = if words.len() > 0 {
                words[0]
            } else {
                ""
            };
            assert(tok@ == first_word(line@));
            let date = date::parse_date(
                tok,
                match year {
                    Some(y) => y,
                    None => this_year,
                },
            );
            let span = TxnSpan { start, end: i, date };
            out.push(span);
            assert(spans_view(out@) =~= before.push(span@));
            let ghost rest = spans_spec(all, i as int, false, year, this_year);
            assert(before.push(span@) + rest =~= before + (seq![span@] + rest));
        } else {
            if let Some(y) = parser::year_directive(line) {
                year = Some(y);
            }
        }
    }
    assert(spans_view(out@) =~= spans_view(out@) + spans_spec(
        all,
        i as int,
        opaque,
        year,
        this_year,
    ));
    out
}

impl FileMap {
    /// Build the map from a file's raw contents, styles taken from the text
    /// itself. Partial dates without a `Y` directive take the current year.
    #[must_use]
    pub fn build(src: &str) -> (r: Self)
        ensures
            exists|y: i32| r@ == #[trigger] map_spec(src@, Seq::empty(), y),
    {
        let this_year: i32 = date::current_year();
        let none: Vec<(usize, AmountCtx)> = Vec::new();
        assert(tree::ctxs(none@) =~= Seq::empty());
        FileMap::build_in_year(src, none.as_slice(), this_year)
    }

    /// Build the map with the styles the file inherits — from the include
    /// tree ahead of it, and from its own `include` lines, each at the line
    /// it arrives on (see [`tree::format_opts_at`]).
    #[must_use]
    pub fn build_with(src: &str, inherited: &[(usize, AmountCtx)]) -> (r: Self)
        ensures
            exists|y: i32| r@ == #[trigger] map_spec(src@, tree::ctxs(inherited@), y),
    {
        let this_year: i32 = date::current_year();
        FileMap::build_in_year(src, inherited, this_year)
    }

    /// [`FileMap::build_with`] in a given year.
    #[must_use]
    pub fn build_in_year(src: &str, inherited: &[(usize, AmountCtx)], this_year: i32) -> (r: Self)
        ensures
            r@ == map_spec(src@, tree::ctxs(inherited@), this_year),
    {
        let ls = fmt::lines(src);
        let (acc_w, num_w) = tree::widths_with_at(ls.as_slice(), inherited);
        FileMap {
            lines: text::owned(ls.as_slice()),
            transactions: txn_spans(ls.as_slice(), this_year),
            formatted: tree::is_formatted_at(src, inherited),
            acc_w,
            num_w,
        }
    }

    /// Whether the file's transactions are already in date order (equal dates
    /// count as ordered). Unparseable dates are ignored for the check.
    #[must_use]
    pub fn is_date_sorted(&self) -> (r: bool)
        ensures
            r == ascending(dates_spec(self@.transactions)),
    {
        let ghost all = self@.transactions;
        let mut last: Option<Date> = None;
        let mut sorted = true;
        let mut i: usize = 0;
        while i < self.transactions.len()
            invariant
                i <= self.transactions@.len(),
                all == self@.transactions,
                sorted == ascending(dates_spec(all.take(i as int))),
                match last {
                    Some(d) => dates_spec(all.take(i as int)).len() > 0 && dates_spec(
                        all.take(i as int),
                    ).last() == d@,
                    None => dates_spec(all.take(i as int)).len() == 0,
                },
            decreases self.transactions@.len() - i,
        {
            let ghost ds = dates_spec(all.take(i as int));
            assert(all.take(i + 1).drop_last() =~= all.take(i as int));
            assert(all.take(i + 1).last() == self.transactions@[i as int]@);
            if let Some(d) = self.transactions[i].date {
                assert(ds.push(d@).drop_last() =~= ds);
                if let Some(p) = last {
                    if !p.at_most(&d) {
                        sorted = false;
                    }
                }
                last = Some(d);
            }
            i = i + 1;
        }
        assert(all.take(all.len() as int) =~= all);
        sorted
    }
}

/// The transactions of a file stand one after another within it.
pub proof fn transactions_stand_in_order(ls: Seq<Seq<char>>, this_year: i32)
    ensures
        forall|k: int|
            0 <= k < all_spans(ls, this_year).len() ==> 0 <= (
            #[trigger] all_spans(ls, this_year)[k]).start < all_spans(ls, this_year)[k].end
                <= ls.len(),
        forall|j: int, k: int|
            0 <= j < k < all_spans(ls, this_year).len() ==> (
            #[trigger] all_spans(ls, this_year)[j]).end <= (
            #[trigger] all_spans(ls, this_year)[k]).start,
{
    lemma_spans(ls, 0, false, None, this_year);
}

pub proof fn lemma_spans(ls: Seq<Seq<char>>, i: int, opaque: bool, year: Option<i32>, this_year: i32)
    requires
        0 <= i,
    ensures
        ({
            let ss = spans_spec(ls, i, opaque, year, this_year);
            &&& forall|k: int|
                0 <= k < ss.len() ==> i <= (#[trigger] ss[k]).start < ss[k].end <= ls.len()
            &&& forall|j: int, k: int|
                0 <= j < k < ss.len() ==> (#[trigger] ss[j]).end <= (#[trigger] ss[k]).start
        }),
    decreases ls.len() - i,
{
    if i < ls.len() {
        if opaque {
            lemma_spans(ls, i + 1, !lex::closes_block_spec(ls[i]), year, this_year);
        } else if lex::opens_block_spec(ls[i]) {
            lemma_spans(ls, i + 1, true, year, this_year);
        } else if lex::opens_txn_spec(ls[i]) {
            let end = run_end(ls, i + 1);
            lemma_run_end(ls, i + 1);
            lemma_spans(ls, end, false, year, this_year);
            let rest = spans_spec(ls, end, false, year, this_year);
            let ss = spans_spec(ls, i, opaque, year, this_year);
            assert forall|k: int| 0 <= k < ss.len() implies i <= (
            #[trigger] ss[k]).start < ss[k].end <= ls.len() by {
                if k > 0 {
                    assert(ss[k] == rest[k - 1]);
                }
            }
            assert forall|j: int, k: int| 0 <= j < k < ss.len() implies (#[trigger] ss[j]).end <= (
            #[trigger] ss[k]).start by {
                assert(ss[k] == rest[k - 1]);
                if j > 0 {
                    assert(ss[j] == rest[j - 1]);
                }
            }
        } else {
            let y = match parser::year_directive_spec(ls[i]) {
                Some(y) => Some(y as i32),
                None => year,
            };
            lemma_spans(ls, i + 1, false, y, this_year);
        }
    }
}

} // verus!
