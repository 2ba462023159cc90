//! A sorted text is in the order of its dates.

use vstd::prelude::*;
use crate::add::filemap;
use crate::amount::Ctx;
use crate::calendar::{self, full, parts_dates, short, writes};
use crate::date::{self, Day};
use crate::fmt::{self, Options};
use crate::fmt::blank::{self, Block};
use crate::fmt::filled;
use crate::fmt::resort;
use crate::fmt::settle;
use crate::fmt::shape;
use crate::fmt::sort::{self, DateKey, Entry};
use crate::fmt::tree;
use crate::lex;
use crate::text::{self, CharClass};

verus! {

/// Sorting goes by the year, then by the month, then by the day, and ties no
/// two dates.
pub proof fn dates_are_sorted_by_the_calendar(a: DateKey, b: DateKey)
    ensures
        a.year != b.year ==> a.le(b) == (a.year < b.year),
        a.year == b.year && a.month != b.month ==> a.le(b) == (a.month < b.month),
        a.year == b.year && a.month == b.month ==> a.le(b) == (a.day <= b.day),
        a.le(b) || b.le(a),
        a.le(b) && b.le(a) ==> a == b,
{
}

/// A transaction is sorted by the date that its header starts with, whatever
/// separates its parts and whatever stands behind it.
pub proof fn a_header_is_sorted_by_its_date(
    y: Seq<char>,
    p: char,
    m: Seq<char>,
    q: char,
    d: Seq<char>,
    second: Seq<char>,
    rest: Seq<char>,
    day: Day,
)
    requires
        calendar::parts_dates(p),
        calendar::parts_dates(q),
        calendar::writes(y, day.year),
        calendar::writes(m, day.month),
        calendar::writes(d, day.day),
        day.is_real(),
        second.len() == 0 || second[0] == '=',
        forall|i: int| 0 <= i < second.len() ==> !text::is_white(#[trigger] second[i]),
        rest.len() == 0 || text::is_white(rest[0]),
    ensures
        sort::date_key_spec(calendar::full(y, p, m, q, d) + second + rest) == (DateKey {
            year: day.year as i64,
            month: day.month as i64,
            day: day.day as i64,
        }),
        sort::date_key_spec(calendar::short(m, p, d) + second + rest) == (DateKey {
            year: 0,
            month: day.month as i64,
            day: day.day as i64,
        }),
{
    calendar::lemma_full_parts(y, p, m, q, d);
    calendar::lemma_full_dateish(y, p, m, q, d);
    calendar::lemma_primary(calendar::full(y, p, m, q, d), second);
    calendar::lemma_leading_word(calendar::full(y, p, m, q, d), second, rest);
    calendar::lemma_short_parts(m, p, d);
    calendar::lemma_short_dateish(m, p, d);
    calendar::lemma_primary(calendar::short(m, p, d), second);
    calendar::lemma_leading_word(calendar::short(m, p, d), second, rest);
    calendar::lemma_count(y, day.year);
    calendar::lemma_count(m, day.month);
    calendar::lemma_count(d, day.day);
}

/// Whether a line starts with a day, whatever year is in effect.
pub open spec fn dated(l: Seq<char>, day: Day) -> bool {
    forall|year: int| #[trigger] date::parse_date_spec(filemap::first_word(l), year) == Some(day)
}

/// The line that heads a block, behind the comments above it.
pub open spec fn head(b: Block) -> Seq<char> {
    b.lines[shape::lead(b.lines)]
}

proof fn lemma_dated(l: Seq<char>, day: Day)
    requires
        dated(l, day),
    ensures
        day.is_real(),
        sort::date_key_spec(l) == (DateKey {
            year: day.year as i64,
            month: day.month as i64,
            day: day.day as i64,
        }),
{
    let w = filemap::first_word(l);
    assert(date::parse_date_spec(w, day.year + 1) == Some(day));
    let primary = text::split_spec(w, CharClass::Is('='))[0];
    let parts = text::split_spec(primary, CharClass::DateSep);
    assert(parts.len() == 3);
}

/// The keys of transactions with nothing between them go up.
proof fn lemma_keys_go_up(bs: Seq<Block>, last: Option<DateKey>, i: int, j: int)
    requires
        resort::blocks_in_order(bs, last),
        0 <= i <= j < bs.len(),
        forall|k: int| i <= k <= j ==> (#[trigger] bs[k]).txn,
    ensures
        sort::date_key_spec(head(bs[i])).le(sort::date_key_spec(head(bs[j]))),
        i == 0 ==> (last matches Some(m) ==> m.le(sort::date_key_spec(head(bs[j])))),
    decreases bs.len(),
{
    let more = bs.skip(1);
    let k = sort::date_key_spec(head(bs[0]));
    let next = if bs[0].txn {
        Some(k)
    } else {
        None
    };
    assert(resort::blocks_in_order(more, next));
    if j > 0 {
        let from = if i > 0 {
            i - 1
        } else {
            0
        };
        assert forall|n: int| from <= n <= j - 1 implies (#[trigger] more[n]).txn by {
            assert(more[n] == bs[n + 1]);
        }
        lemma_keys_go_up(more, next, from, j - 1);
        assert(more[j - 1] == bs[j]);
        assert(more[from] == bs[from + 1]);
        assert(bs[i].txn);
    } else {
        assert(bs[i].txn);
    }
}

/// Whether the transactions of a text with nothing but transactions between
/// them are in the order of their days.
pub open spec fn chronological(ls: Seq<Seq<char>>) -> bool {
    let bs = blank::parse_spec(ls, Seq::empty(), false);
    forall|i: int, j: int, a: Day, b: Day|
        0 <= i < j < bs.len() && (forall|k: int| i <= k <= j ==> (#[trigger] bs[k]).txn)
            && #[trigger] dated(head(bs[i]), a) && #[trigger] dated(head(bs[j]), b) ==> a.number()
            <= b.number()
}

/// Lines whose blocks are in order.
proof fn lemma_chronological(ls: Seq<Seq<char>>)
    requires
        resort::blocks_in_order(blank::parse_spec(ls, Seq::empty(), false), None),
    ensures
        chronological(ls),
{
    let bs = blank::parse_spec(ls, Seq::empty(), false);
    assert forall|i: int, j: int, a: Day, b: Day|
        0 <= i < j < bs.len() && (forall|k: int| i <= k <= j ==> (#[trigger] bs[k]).txn)
            && #[trigger] dated(head(bs[i]), a) && #[trigger] dated(head(bs[j]), b) implies a.number()
        <= b.number() by {
        lemma_keys_go_up(bs, None, i, j);
        lemma_dated(head(bs[i]), a);
        lemma_dated(head(bs[j]), b);
        if a != b {
            calendar::lemma_before(a, b);
        }
    }
}

/// Sorting puts transactions in the order of their days, between barriers.
pub proof fn sorted_lines_are_chronological(ls: Seq<Seq<char>>)
    ensures
        chronological(sort::sort_entries_spec(ls)),
{
    resort::lemma_sorted_blocks(ls);
    lemma_chronological(sort::sort_entries_spec(ls));
}

/// Blank lines that are noted change no order.
proof fn lemma_noted_order(prev: Block, bs: Seq<Block>, last: Option<DateKey>)
    ensures
        resort::blocks_in_order(shape::noted(prev, bs), last) == resort::blocks_in_order(bs, last),
    decreases bs.len(),
{
    if bs.len() > 0 {
        let n = shape::noted(prev, bs);
        assert(n[0].txn == bs[0].txn && n[0].lines == bs[0].lines);
        assert(n.skip(1) =~= shape::noted(bs[0], bs.skip(1)));
        let next = if bs[0].txn {
            Some(sort::date_key_spec(head(bs[0])))
        } else {
            None
        };
        lemma_noted_order(bs[0], bs.skip(1), next);
    }
}

proof fn lemma_normal_order(ls: Seq<Seq<char>>)
    requires
        resort::blocks_in_order(blank::parse_spec(ls, Seq::empty(), false), None),
    ensures
        resort::blocks_in_order(
            blank::parse_spec(blank::normalize_spec(ls), Seq::empty(), false),
            None,
        ),
{
    let none = Seq::<Seq<char>>::empty();
    let bs = blank::parse_spec(ls, none, false);
    shape::lemma_parse_chain(ls, none, false);
    if bs.len() == 0 {
        assert(blank::normalize_spec(ls) =~= none);
        assert(blank::parse_spec(none, none, false) =~= Seq::empty());
    } else {
        shape::lemma_join_front(bs);
        shape::lemma_read_back(bs, false);
        let again = blank::parse_spec(blank::normalize_spec(ls), none, false);
        let more = shape::noted(bs[0], bs.skip(1));
        assert(again.skip(1) =~= more);
        assert(again[0].txn == bs[0].txn && again[0].lines == bs[0].lines);
        let next = if bs[0].txn {
            Some(sort::date_key_spec(head(bs[0])))
        } else {
            None
        };
        lemma_noted_order(bs[0], bs.skip(1), next);
    }
}

/// What is formatted with `--sort` is in the order of its days between its
/// barriers, under whatever styles, with or without amounts filled in.
pub proof fn a_sorted_text_is_chronological(s: Seq<char>, ctx: Ctx, opts: Options)
    requires
        settle::clean(ctx),
        opts.sort,
    ensures
        chronological(fmt::lines_spec(fmt::format_spec(s, ctx, opts))),
{
    let out = fmt::format_spec(s, ctx, opts);
    let ls = fmt::lines_spec(out);
    fmt::lemma_one_stage(fmt::arranged_spec(s, opts), ctx, opts);
    filled::lemma_settles(s, seq![ctx], opts);
    assert(blank::normalize_spec(sort::sort_entries_spec(ls)) == ls);
    resort::lemma_sorted_blocks(ls);
    lemma_normal_order(sort::sort_entries_spec(ls));
    lemma_chronological(ls);
}

/// A file of an include tree is in the order of its days between its barriers
/// once it is formatted with `--sort`.
pub proof fn a_sorted_file_is_chronological(
    s: Seq<char>,
    inherited: Seq<(usize, Ctx)>,
    opts: Options,
)
    requires
        filled::clean_inheritance(inherited),
        opts.sort,
    ensures
        chronological(fmt::lines_spec(tree::format_at_spec(s, inherited, opts))),
{
    let out = tree::format_at_spec(s, inherited, opts);
    let ls = fmt::lines_spec(out);
    filled::a_file_in_a_tree_settles(s, inherited, opts);
    assert(blank::normalize_spec(sort::sort_entries_spec(ls)) == ls);
    resort::lemma_sorted_blocks(ls);
    lemma_normal_order(sort::sort_entries_spec(ls));
    lemma_chronological(ls);
}

// ---- what is sorted ----

proof fn lemma_comments(cs: Seq<Seq<char>>, rest: Seq<Seq<char>>, pending: Seq<Seq<char>>)
    requires
        forall|i: int|
            0 <= i < cs.len() ==> lex::is_comment_spec(#[trigger] cs[i]) && !lex::is_blank_spec(
                cs[i],
            ),
    ensures
        sort::entries_spec(cs + rest, pending) == sort::entries_spec(rest, pending + cs),
    decreases cs.len(),
{
    if cs.len() == 0 {
        assert(cs + rest =~= rest);
        assert(pending + cs =~= pending);
    } else {
        let more = cs.skip(1);
        assert forall|i: int| 0 <= i < more.len() implies lex::is_comment_spec(#[trigger] more[i])
            && !lex::is_blank_spec(more[i]) by {
            assert(more[i] == cs[i + 1]);
        }
        assert((cs + rest)[0] == cs[0]);
        assert((cs + rest).skip(1) =~= more + rest);
        lemma_comments(more, rest, pending.push(cs[0]));
        assert(pending.push(cs[0]) + more =~= pending + cs);
    }
}

proof fn lemma_indented_body(body: Seq<Seq<char>>, rest: Seq<Seq<char>>)
    requires
        forall|i: int| 0 <= i < body.len() ==> lex::is_indented_spec(#[trigger] body[i]),
        rest.len() > 0 ==> !lex::is_indented_spec(rest[0]),
    ensures
        blank::indented_len_spec(body + rest) == body.len(),
{
    let all = body + rest;
    blank::lemma_indented_len(all);
    let k = blank::indented_len_spec(all);
    if k < body.len() {
        assert(all[k] == body[k]);
    } else if k > body.len() {
        assert(all[body.len() as int] == rest[0]);
        assert(lex::is_indented_spec(all[body.len() as int]));
    }
}

/// Sorting moves a transaction as a whole: the comment lines right above it, its
/// header and its postings, by the date of the header. Anything else that starts
/// a line is a barrier, with the comment lines above it and the indented lines
/// below it.
pub proof fn a_transaction_moves_as_a_whole(
    cs: Seq<Seq<char>>,
    head: Seq<char>,
    body: Seq<Seq<char>>,
    rest: Seq<Seq<char>>,
)
    requires
        forall|i: int|
            0 <= i < cs.len() ==> lex::is_comment_spec(#[trigger] cs[i]) && !lex::is_blank_spec(
                cs[i],
            ),
        !lex::is_blank_spec(head),
        !lex::is_comment_spec(head),
        !lex::opens_block_spec(head),
        forall|i: int| 0 <= i < body.len() ==> lex::is_indented_spec(#[trigger] body[i]),
        rest.len() > 0 ==> !lex::is_indented_spec(rest[0]),
    ensures
        sort::entries_spec(cs + (seq![head] + body + rest), Seq::empty()) == seq![
            if head.len() > 0 && text::is_digit(head[0]) {
                Entry::Txn(sort::date_key_spec(head), cs + seq![head] + body)
            } else {
                Entry::Anchor(cs + seq![head] + body)
            },
        ] + sort::entries_spec(rest, Seq::empty()),
{
    let none = Seq::<Seq<char>>::empty();
    let all = seq![head] + body + rest;
    lemma_comments(cs, all, none);
    assert(none + cs =~= cs);
    let tail = all.skip(1);
    assert(tail =~= body + rest);
    assert(all[0] == head);
    lemma_indented_body(body, rest);
    let n = body.len() as int;
    assert(blank::body_len_spec(head, tail) == n);
    assert(tail.take(n) =~= body);
    assert(tail.skip(n) =~= rest);
    assert(cs.push(head) + body =~= cs + seq![head] + body);
}

} // verus!
