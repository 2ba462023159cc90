//! Directive-bounded stable sort of transactions by date.
//!
//! Directives and standalone comment blocks are barriers: transactions
//! reorder only within the runs between them, which keeps positional
//! directives in scope. A comment line directly above a transaction (no blank
//! line between) travels with it. A `comment` … `end comment` block is one
//! barrier, whatever its lines look like.

use vstd::prelude::*;
use crate::fmt::blank;
use crate::lex;
use crate::text::{self, CharClass};

verus! {

/// A transaction's sort key: its primary date as year, month and day.
#[derive(Debug, Clone, Copy, PartialEq, Eq, Structural)]
pub struct DateKey {
    pub year: i64,
    pub month: i64,
    pub day: i64,
}

impl DateKey {
    /// Whether a date is not after another.
    pub open spec fn le(self, other: DateKey) -> bool {
        ||| self.year < other.year
        ||| self.year == other.year && self.month < other.month
        ||| self.year == other.year && self.month == other.month && self.day <= other.day
    }

    fn at_most(&self, other: &DateKey) -> (r: bool)
        ensures
            r == self.le(*other),
    {
        self.year < other.year || (self.year == other.year && (self.month < other.month || (
        self.month == other.month && self.day <= other.day)))
    }
}

/// One chunk of the file for sorting purposes.
#[verifier::ext_equal]
pub enum Entry {
    /// A single blank line: a separator, kept in place.
    Blank,
    /// A directive or standalone comment block: a barrier.
    Anchor(Seq<Seq<char>>),
    /// A transaction: its date key, and its lines (any leading comment lines
    /// attached above the header, the header, and its posting lines).
    Txn(DateKey, Seq<Seq<char>>),
}

impl Entry {
    /// The lines of an entry.
    pub open spec fn lines(self) -> Seq<Seq<char>> {
        match self {
            Entry::Blank => seq![Seq::empty()],
            Entry::Anchor(ls) => ls,
            Entry::Txn(_, ls) => ls,
        }
    }

    /// The date of a transaction.
    pub open spec fn key(self) -> DateKey {
        match self {
            Entry::Txn(k, _) => k,
            _ => DateKey { year: 0, month: 0, day: 0 },
        }
    }
}

/// A number of a date, or zero.
pub open spec fn date_part_spec(s: Seq<char>) -> i64 {
    match text::number_between(s, i64::MIN as int, i64::MAX as int) {
        Some(n) => n as i64,
        None => 0,
    }
}

/// The sort key of a transaction header: its primary date. Without a year, or
/// where it is no date at all, zeros stand in.
pub open spec fn date_key_spec(line: Seq<char>) -> DateKey {
    let w = text::words_spec(line);
    let token = if w.len() == 0 {
        Seq::empty()
    } else {
        w[0]
    };
    let primary = text::split_spec(token, CharClass::Is('='))[0];
    let parts = text::split_spec(primary, CharClass::DateSep);
    if parts.len() == 3 {
        DateKey {
            year: date_part_spec(parts[0]),
            month: date_part_spec(parts[1]),
            day: date_part_spec(parts[2]),
        }
    } else if parts.len() == 2 {
        DateKey { year: 0, month: date_part_spec(parts[0]), day: date_part_spec(parts[1]) }
    } else {
        DateKey { year: 0, month: 0, day: 0 }
    }
}

/// The buffered comments as a barrier, if there are any.
pub open spec fn held_spec(pending: Seq<Seq<char>>) -> Seq<Entry> {
    if pending.len() == 0 {
        Seq::empty()
    } else {
        seq![Entry::Anchor(pending)]
    }
}

/// The entries of the remaining lines, `pending` being comment lines not yet
/// known to head anything.
pub open spec fn entries_spec(rest: Seq<Seq<char>>, pending: Seq<Seq<char>>) -> Seq<Entry>
    decreases rest.len(),
{
    if rest.len() == 0 {
        held_spec(pending)
    } else {
        let line = rest[0];
        let tail = rest.skip(1);
        if lex::is_blank_spec(line) {
            held_spec(pending) + seq![Entry::Blank] + entries_spec(tail, Seq::empty())
        } else if lex::is_comment_spec(line) {
            entries_spec(tail, pending.push(line))
        } else {
            let n = blank::body_len_spec(line, tail);
            let block = pending.push(line) + tail.take(n);
            proof {
                blank::lemma_body_len(line, tail);
            }
            seq![
                if lex::opens_txn_spec(line) {
                    Entry::Txn(date_key_spec(line), block)
                } else {
                    Entry::Anchor(block)
                },
            ] + entries_spec(tail.skip(n), Seq::empty())
        }
    }
}

/// Where a transaction goes among sorted ones: behind all that are not later.
pub open spec fn slot_spec(sorted: Seq<Entry>, key: DateKey) -> int
    decreases sorted.len(),
{
    if sorted.len() == 0 || sorted.last().key().le(key) {
        sorted.len() as int
    } else {
        slot_spec(sorted.drop_last(), key)
    }
}

/// The transactions of a run in date order, equal dates in source order.
pub open spec fn sorted_spec(run: Seq<Entry>) -> Seq<Entry>
    decreases run.len(),
{
    if run.len() == 0 {
        Seq::empty()
    } else {
        let before = sorted_spec(run.drop_last());
        match run.last() {
            Entry::Txn(k, _) => before.insert(slot_spec(before, k), run.last()),
            _ => before,
        }
    }
}

/// How many of the entries are transactions.
pub open spec fn txns_spec(run: Seq<Entry>) -> int
    decreases run.len(),
{
    if run.len() == 0 {
        0
    } else {
        txns_spec(run.drop_last()) + if run.last() is Txn {
            1int
        } else {
            0
        }
    }
}

/// A run with its transactions replaced by those of a list, in order. The
/// blank lines stay where they are.
pub open spec fn refill_spec(run: Seq<Entry>, sorted: Seq<Entry>) -> Seq<Entry>
    decreases run.len(),
{
    if run.len() == 0 {
        Seq::empty()
    } else {
        refill_spec(run.drop_last(), sorted).push(
            if run.last() is Txn {
                sorted[txns_spec(run.drop_last())]
            } else {
                run.last()
            },
        )
    }
}

/// A run with its transactions in date order.
pub open spec fn sort_run_spec(run: Seq<Entry>) -> Seq<Entry> {
    refill_spec(run, sorted_spec(run))
}

/// The entries with every run between barriers sorted, `run` being the one
/// begun.
pub open spec fn sort_runs_spec(rest: Seq<Entry>, run: Seq<Entry>) -> Seq<Entry>
    decreases rest.len(),
{
    if rest.len() == 0 {
        sort_run_spec(run)
    } else if rest[0] is Anchor {
        sort_run_spec(run).push(rest[0]) + sort_runs_spec(rest.skip(1), Seq::empty())
    } else {
        sort_runs_spec(rest.skip(1), run.push(rest[0]))
    }
}

/// The lines of entries.
pub open spec fn entry_lines_spec(es: Seq<Entry>) -> Seq<Seq<char>>
    decreases es.len(),
{
    if es.len() == 0 {
        Seq::empty()
    } else {
        entry_lines_spec(es.drop_last()) + es.last().lines()
    }
}

/// Lines with the transactions of every run between barriers in date order.
pub open spec fn sort_entries_spec(ls: Seq<Seq<char>>) -> Seq<Seq<char>> {
    entry_lines_spec(sort_runs_spec(entries_spec(ls, Seq::empty()), Seq::empty()))
}

/// An entry as it is built.
enum Item<'a> {
    Blank,
    Anchor(Vec<&'a str>),
    Txn(DateKey, Vec<&'a str>),
}

impl<'a> View for Item<'a> {
    type V = Entry;

    closed spec fn view(&self) -> Entry {
        match self {
            Item::Blank => Entry::Blank,
            Item::Anchor(ls) => Entry::Anchor(text::strs(ls@)),
            Item::Txn(k, ls) => Entry::Txn(*k, text::strs(ls@)),
        }
    }
}

spec fn items(v: Seq<Item>) -> Seq<Entry> {
    v.map_values(|e: Item| e@)
}

impl<'a> Item<'a> {
    /// The same entry again.
    fn duplicate(&self) -> (r: Item<'a>)
        ensures
            r@ == self@,
    {
        match self {
            Item::Blank => Item::Blank,
            Item::Anchor(ls) => {
                let copy = lex::part(ls.as_slice(), 0, ls.len());
                assert(copy@ =~= ls@);
                Item::Anchor(copy)
            },
            Item::Txn(k, ls) => {
                let copy = lex::part(ls.as_slice(), 0, ls.len());
                assert(copy@ =~= ls@);
                Item::Txn(*k, copy)
            },
        }
    }

    fn key(&self) -> (r: DateKey)
        ensures
            r == self@.key(),
    {
        match self {
            Item::Txn(k, _) => *k,
            _ => DateKey { year: 0, month: 0, day: 0 },
        }
    }
}

fn date_part(s: &str) -> (r: i64)
    ensures
        r == date_part_spec(s@),
{
    match text::parse_i64(s) {
        Some(n) => n,
        None => 0,
    }
}

/// The sort key from a transaction header: its primary date parsed to year,
/// month and day. Unparseable dates sort first; the stable sort then
/// preserves their source order.
pub fn date_key(line: &str) -> (r: DateKey)
    ensures
        r == date_key_spec(line@),
{
    let w = text::words(line);
    let ghost wv = text::words_spec(line@);
    assert(wv.len() == w@.len());
    let token = if w.len() == 0 {
        ""
    } else {
        assert(wv[0] == w@[0]@);
        w[0]
    };
    proof {
        reveal_strlit("");
        assert(""@ =~= Seq::<char>::empty());
    }
    // Drop any =secondary-date.
    let halves = text::split(token, CharClass::Is('='));
    let ghost hv = text::split_spec(token@, CharClass::Is('='));
    assert(hv.len() == halves@.len());
    assert(hv.len() >= 1);
    assert(hv[0] == halves@[0]@);
    let parts = text::split(halves[0], CharClass::DateSep);
    let ghost pv = text::split_spec(halves@[0]@, CharClass::DateSep);
    assert(pv.len() == parts@.len());
    if parts.len() == 3 {
        assert(pv[0] == parts@[0]@ && pv[1] == parts@[1]@ && pv[2] == parts@[2]@);
        DateKey {
            year: date_part(parts[0]),
            month: date_part(parts[1]),
            day: date_part(parts[2]),
        }
    } else if parts.len() == 2 {
        assert(pv[0] == parts@[0]@ && pv[1] == parts@[1]@);
        DateKey { year: 0, month: date_part(parts[0]), day: date_part(parts[1]) }
    } else {
        DateKey { year: 0, month: 0, day: 0 }
    }
}

fn flush<'a>(out: &mut Vec<Item<'a>>, pending: Vec<&'a str>)
    ensures
        items(final(out)@) == items(old(out)@) + held_spec(text::strs(pending@)),
{
    let ghost before = items(out@);
    assert(text::strs(pending@).len() == pending@.len());
    if pending.len() > 0 {
        let ghost p = text::strs(pending@);
        out.push(Item::Anchor(pending));
        assert(items(out@) =~= before + held_spec(p));
    } else {
        assert(items(out@) =~= before + held_spec(text::strs(pending@)));
    }
}

/// Split the file into entries, attaching leading comment lines to the
/// transaction they head. A comment followed by a blank line is standalone,
/// and therefore a barrier.
fn parse_entries<'a>(ls: &[&'a str]) -> (r: Vec<Item<'a>>)
    ensures
        items(r@) == entries_spec(text::strs(ls@), Seq::empty()),
{
    let ghost all = text::strs(ls@);
    let mut out: Vec<Item<'a>> = Vec::new();
    // Buffered leading comment lines awaiting the transaction they head.
    let mut pending: Vec<&'a str> = Vec::new();
    let mut i: usize = 0;
    assert(text::strs(pending@) =~= Seq::empty());
    assert(all.skip(0) =~= all);
    assert(items(out@) + entries_spec(all, text::strs(pending@)) =~= entries_spec(
        all,
        Seq::empty(),
    ));
    while i < ls.len()
        invariant
            i <= ls@.len(),
            all == text::strs(ls@),
            items(out@) + entries_spec(all.skip(i as int), text::strs(pending@)) == entries_spec(
                all,
                Seq::empty(),
            ),
        decreases ls@.len() - i,
    {
        let line = ls[i];
        let ghost rest = all.skip(i as int);
        let ghost done = items(out@);
        let ghost held = text::strs(pending@);
        assert(rest[0] == line@);
        assert(rest.skip(1) =~= all.skip(i + 1));
        i = i + 1;
        if lex::is_blank(line) {
            flush(&mut out, pending);
            let ghost flushed = items(out@);
            out.push(Item::Blank);
            pending = Vec::new();
            assert(text::strs(pending@) =~= Seq::empty());
            assert(items(out@) =~= flushed.push(Entry::Blank));
            assert(done + (held_spec(held) + seq![Entry::Blank] + entries_spec(
                all.skip(i as int),
                Seq::empty(),
            )) =~= items(out@) + entries_spec(all.skip(i as int), text::strs(pending@)));
        } else if lex::is_comment(line) {
            pending.push(line);
            assert(text::strs(pending@) =~= held.push(line@));
        } else {
            let n: usize = blank::body_len(line, ls, i);
            pending.push(line);
            let mut run = lex::part(ls, i, i + n);
            let ghost head = pending@;
            let ghost body = run@;
            pending.append(&mut run);
            assert(text::strs(pending@) =~= held.push(line@) + rest.skip(1).take(n as int));
            let entry = if lex::opens_txn(line) {
                Item::Txn(date_key(line), pending)
            } else {
                Item::Anchor(pending)
            };
            let ghost ev = entry@;
            out.push(entry);
            pending = Vec::new();
            i = i + n;
            assert(text::strs(pending@) =~= Seq::empty());
            assert(items(out@) =~= done.push(ev));
            assert(rest.skip(1).skip(n as int) =~= all.skip(i as int));
            assert(done + (seq![ev] + entries_spec(all.skip(i as int), Seq::empty()))
                =~= items(out@) + entries_spec(all.skip(i as int), text::strs(pending@)));
        }
    }
    assert(all.skip(i as int) =~= Seq::empty());
    flush(&mut out, pending);
    out
}

pub proof fn lemma_slot(sorted: Seq<Entry>, key: DateKey)
    ensures
        0 <= slot_spec(sorted, key) <= sorted.len(),
    decreases sorted.len(),
{
    if sorted.len() > 0 && !sorted.last().key().le(key) {
        lemma_slot(sorted.drop_last(), key);
    }
}

/// Where a transaction goes among sorted ones.
fn slot(sorted: &[Item], key: &DateKey) -> (r: usize)
    ensures
        r == slot_spec(items(sorted@), *key),
        r <= sorted@.len(),
{
    let ghost all = items(sorted@);
    let mut i: usize = sorted.len();
    assert(all.take(all.len() as int) =~= all);
    while i > 0
        invariant
            i <= sorted@.len(),
            all == items(sorted@),
            slot_spec(all, *key) == slot_spec(all.take(i as int), *key),
        decreases i,
    {
        assert(all.take(i as int).last() == sorted@[i - 1]@);
        assert(all.take(i as int).drop_last() =~= all.take(i - 1));
        if sorted[i - 1].key().at_most(key) {
            return i;
        }
        i = i - 1;
    }
    0
}

pub proof fn lemma_sorted_len(run: Seq<Entry>)
    ensures
        sorted_spec(run).len() == txns_spec(run),
    decreases run.len(),
{
    if run.len() > 0 {
        lemma_sorted_len(run.drop_last());
        let before = sorted_spec(run.drop_last());
        lemma_slot(before, run.last().key());
        match run.last() {
            Entry::Txn(k, _) => {
                before.insert_ensures(slot_spec(before, k), run.last());
            },
            _ => {},
        }
    }
}

pub proof fn lemma_txns_grow(run: Seq<Entry>, n: int)
    requires
        0 <= n <= run.len(),
    ensures
        0 <= txns_spec(run.take(n)) <= txns_spec(run),
        n < run.len() && run[n] is Txn ==> txns_spec(run.take(n)) < txns_spec(run),
    decreases run.len() - n, n,
{
    if n < run.len() {
        assert(run.take(n + 1).drop_last() =~= run.take(n));
        lemma_txns_grow(run, n + 1);
    } else {
        assert(run.take(n) =~= run);
        lemma_txns_nonneg(run);
    }
    lemma_txns_nonneg(run.take(n));
}

proof fn lemma_txns_nonneg(run: Seq<Entry>)
    ensures
        txns_spec(run) >= 0,
    decreases run.len(),
{
    if run.len() > 0 {
        lemma_txns_nonneg(run.drop_last());
    }
}

/// Stably sort the transactions in a run by date, leaving blank separators in
/// their original positions.
fn sort_run<'a>(run: &[Item<'a>]) -> (r: Vec<Item<'a>>)
    ensures
        items(r@) == sort_run_spec(items(run@)),
{
    let ghost all = items(run@);
    let mut sorted: Vec<Item<'a>> = Vec::new();
    let mut i: usize = 0;
    assert(items(sorted@) =~= Seq::empty());
    while i < run.len()
        invariant
            i <= run@.len(),
            all == items(run@),
            items(sorted@) == sorted_spec(all.take(i as int)),
        decreases run@.len() - i,
    {
        assert(all.take(i + 1).drop_last() =~= all.take(i as int));
        assert(all.take(i + 1).last() == run@[i as int]@);
        if let Item::Txn(k, _) = &run[i] {
            let at: usize = slot(sorted.as_slice(), k);
            let ghost before = items(sorted@);
            let copy = run[i].duplicate();
            let ghost cv = copy@;
            sorted.insert(at, copy);
            assert(items(sorted@) =~= before.insert(at as int, cv));
        }
        i = i + 1;
    }
    assert(all.take(all.len() as int) =~= all);
    let ghost order = sorted_spec(all);
    let mut out: Vec<Item<'a>> = Vec::new();
    let total: usize = sorted.len();
    let mut next: usize = 0;
    i = 0;
    assert(items(out@) =~= Seq::empty());
    proof {
        lemma_sorted_len(all);
    }
    while i < run.len()
        invariant
            i <= run@.len(),
            all == items(run@),
            order == sorted_spec(all),
            items(sorted@) == order,
            order.len() == txns_spec(all),
            next == txns_spec(all.take(i as int)),
            next <= total == sorted@.len(),
            items(out@) == refill_spec(all.take(i as int), order),
        decreases run@.len() - i,
    {
        assert(all.take(i + 1).drop_last() =~= all.take(i as int));
        assert(all.take(i + 1).last() == run@[i as int]@);
        let ghost before = items(out@);
        proof {
            lemma_txns_grow(all, i as int);
            assert(items(sorted@).len() == sorted@.len());
        }
        if let Item::Txn(_, _) = &run[i] {
            assert(order[next as int] == sorted@[next as int]@);
            let copy = sorted[next].duplicate();
            let ghost cv = copy@;
            out.push(copy);
            assert(items(out@) =~= before.push(cv));
            next = next + 1;
        } else {
            let copy = run[i].duplicate();
            let ghost cv = copy@;
            out.push(copy);
            assert(items(out@) =~= before.push(cv));
        }
        i = i + 1;
        proof {
            lemma_txns_grow(all, i as int);
        }
    }
    assert(all.take(all.len() as int) =~= all);
    out
}

/// Reorder transactions within each maximal run bounded by anchors.
fn sort_runs<'a>(entries: &[Item<'a>]) -> (r: Vec<Item<'a>>)
    ensures
        items(r@) == sort_runs_spec(items(entries@), Seq::empty()),
{
    let ghost all = items(entries@);
    let mut out: Vec<Item<'a>> = Vec::new();
    let mut run: Vec<Item<'a>> = Vec::new();
    let mut i: usize = 0;
    assert(items(run@) =~= Seq::empty());
    assert(all.skip(0) =~= all);
    assert(items(out@) + sort_runs_spec(all, items(run@)) =~= sort_runs_spec(all, Seq::empty()));
    while i < entries.len()
        invariant
            i <= entries@.len(),
            all == items(entries@),
            items(out@) + sort_runs_spec(all.skip(i as int), items(run@)) == sort_runs_spec(
                all,
                Seq::empty(),
            ),
        decreases entries@.len() - i,
    {
        let ghost rest = all.skip(i as int);
        let ghost done = items(out@);
        let ghost held = items(run@);
        let e = entries[i].duplicate();
        let ghost ev = e@;
        assert(rest[0] == ev);
        assert(rest.skip(1) =~= all.skip(i + 1));
        i = i + 1;
        if let Item::Anchor(_) = &e {
            let mut sorted = sort_run(run.as_slice());
            let ghost sv = items(sorted@);
            out.append(&mut sorted);
            assert(items(out@) =~= done + sv);
            out.push(e);
            assert(items(out@) =~= (done + sv).push(ev));
            run = Vec::new();
            assert(items(run@) =~= Seq::empty());
            assert(done + (sort_run_spec(held).push(ev) + sort_runs_spec(
                all.skip(i as int),
                Seq::empty(),
            )) =~= items(out@) + sort_runs_spec(all.skip(i as int), items(run@)));
        } else {
            run.push(e);
            assert(items(run@) =~= held.push(ev));
        }
    }
    assert(all.skip(i as int) =~= Seq::empty());
    let ghost done = items(out@);
    let mut sorted = sort_run(run.as_slice());
    let ghost sv = items(sorted@);
    out.append(&mut sorted);
    assert(items(out@) =~= done + sv);
    out
}

/// Put the lines of an entry on a list.
fn push_lines<'a>(out: &mut Vec<&'a str>, e: &Item<'a>)
    ensures
        text::strs(final(out)@) == text::strs(old(out)@) + e@.lines(),
{
    let ghost before = text::strs(out@);
    match e {
        Item::Blank => {
            out.push("");
            proof {
                reveal_strlit("");
                assert(""@ =~= Seq::<char>::empty());
            }
            assert(text::strs(out@) =~= before + e@.lines());
        },
        Item::Anchor(ls) => {
            let mut copy = lex::part(ls.as_slice(), 0, ls.len());
            assert(copy@ =~= ls@);
            out.append(&mut copy);
            assert(text::strs(out@) =~= before + e@.lines());
        },
        Item::Txn(_, ls) => {
            let mut copy = lex::part(ls.as_slice(), 0, ls.len());
            assert(copy@ =~= ls@);
            out.append(&mut copy);
            assert(text::strs(out@) =~= before + e@.lines());
        },
    }
}

/// Stably sort transactions by date within each directive-bounded run, then
/// flatten back to lines.
#[must_use]
pub fn sort_entries<'a>(ls: &[&'a str]) -> (r: Vec<&'a str>)
    ensures
        text::strs(r@) == sort_entries_spec(text::strs(ls@)),
{
    let entries = parse_entries(ls);
    let sorted = sort_runs(entries.as_slice());
    let ghost all = items(sorted@);
    let mut out: Vec<&'a str> = Vec::new();
    let mut i: usize = 0;
    assert(text::strs(out@) =~= Seq::empty());
    while i < sorted.len()
        invariant
            i <= sorted@.len(),
            all == items(sorted@),
            text::strs(out@) == entry_lines_spec(all.take(i as int)),
        decreases sorted@.len() - i,
    {
        assert(all.take(i + 1).drop_last() =~= all.take(i as int));
        assert(all.take(i + 1).last() == sorted@[i as int]@);
        push_lines(&mut out, &sorted[i]);
        i = i + 1;
    }
    assert(all.take(all.len() as int) =~= all);
    out
}

} // verus!
