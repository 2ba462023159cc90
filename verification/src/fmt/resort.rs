//! Why sorting and formatting settle together.

use vstd::prelude::*;
use crate::amount::Ctx;
use crate::fmt::{self, Classify, Options, Scan};
use crate::fmt::blank::{self, Block};
use crate::fmt::laws;
use crate::fmt::order;
use crate::fmt::reread;
use crate::fmt::scanned;
use crate::fmt::settle;
use crate::fmt::shape;
use crate::fmt::sort::{self, DateKey, Entry};
use crate::fmt::steady;
use crate::lex;
use crate::text::{self, CharClass};
use crate::tokens;

verus! {

// ---- entries and blocks ----

/// A block as an entry.
pub open spec fn chunk(b: Block) -> Entry {
    if b.txn {
        Entry::Txn(sort::date_key_spec(b.lines[shape::lead(b.lines)]), b.lines)
    } else {
        Entry::Anchor(b.lines)
    }
}

/// An entry as a block.
pub open spec fn block_of(e: Entry) -> Block {
    Block { txn: e is Txn, lines: e.lines(), blank_before: false }
}

/// Whether an entry is one as they are read.
pub open spec fn sane(e: Entry) -> bool {
    e is Blank || shape::valid(block_of(e)) && chunk(block_of(e)) == e
}

/// Whether a line may stand right behind a block.
pub open spec fn may_follow(b: Block, next: Seq<char>) -> bool {
    let k = shape::lead(b.lines);
    if k < b.lines.len() {
        if lex::opens_block_spec(b.lines[k]) {
            shape::closed(b.lines.skip(k + 1))
        } else {
            !lex::is_indented_spec(next)
        }
    } else {
        lex::is_blank_spec(next)
    }
}

/// Whether an entry may stand right behind another.
pub open spec fn joined(a: Entry, b: Entry) -> bool {
    a is Blank || may_follow(block_of(a), b.lines()[0])
}

/// Whether entries are as they are read from a text.
pub open spec fn sound(es: Seq<Entry>) -> bool {
    &&& forall|i: int| 0 <= i < es.len() ==> sane(#[trigger] es[i])
    &&& forall|i: int| #![trigger es[i]] 0 < i < es.len() ==> joined(es[i - 1], es[i])
}

/// Comment lines are kept until it is known what they head.
proof fn lemma_comments_pend(cs: Seq<Seq<char>>, rest: Seq<Seq<char>>, pending: Seq<Seq<char>>)
    requires
        forall|i: int| 0 <= i < cs.len() ==> lex::is_comment_spec(#[trigger] cs[i]),
    ensures
        sort::entries_spec(cs + rest, pending) == sort::entries_spec(rest, pending + cs),
    decreases cs.len(),
{
    if cs.len() == 0 {
        assert(cs + rest =~= rest);
        assert(pending + cs =~= pending);
    } else {
        let t = cs.skip(1);
        assert forall|i: int| 0 <= i < t.len() implies lex::is_comment_spec(#[trigger] t[i]) by {
            assert(t[i] == cs[i + 1]);
        }
        let line = cs[0];
        lemma_comments_pend(t, rest, pending.push(line));
        assert((cs + rest).skip(1) =~= t + rest);
        assert((cs + rest)[0] == line);
        assert(pending.push(line) + t =~= pending + cs);
        assert(!lex::is_blank_spec(line)) by {
            assert(!text::is_white(line[0]));
        }
    }
}

/// A body ends where it does, whatever follows that may.
proof fn lemma_body_ends(head: Seq<char>, body: Seq<Seq<char>>, rest: Seq<Seq<char>>)
    requires
        shape::is_body(head, body),
        rest.len() > 0 ==> (if lex::opens_block_spec(head) {
            shape::closed(body)
        } else {
            !lex::is_indented_spec(rest[0])
        }),
    ensures
        blank::body_len_spec(head, body + rest) == body.len(),
    decreases body.len(),
{
    let all = body + rest;
    if body.len() == 0 {
        assert(all =~= rest);
        if rest.len() == 0 {
            assert(lex::block_len_spec(rest) == 0);
        }
    } else {
        let t = body.skip(1);
        assert(all[0] == body[0]);
        assert(all.skip(1) =~= t + rest);
        if lex::opens_block_spec(head) {
            if lex::closes_block_spec(body[0]) {
                assert(lex::block_len_spec(body) == 1);
            } else {
                assert(lex::block_len_spec(t) == t.len());
                if rest.len() > 0 {
                    assert(t.len() > 0);
                    assert(t.last() == body.last());
                }
                lemma_body_ends(head, t, rest);
            }
        } else {
            assert(lex::is_indented_spec(body[0]));
            assert forall|i: int| 0 <= i < t.len() implies lex::is_indented_spec(#[trigger] t[i]) by {
                assert(t[i] == body[i + 1]);
            }
            lemma_body_ends(head, t, rest);
        }
    }
}

/// A block is read as one entry where what follows may.
proof fn lemma_block_read(b: Block, rest: Seq<Seq<char>>)
    requires
        shape::valid(b),
        rest.len() > 0 ==> may_follow(b, rest[0]),
    ensures
        sort::entries_spec(b.lines + rest, Seq::empty()) == seq![chunk(b)] + sort::entries_spec(
            rest,
            Seq::empty(),
        ),
{
    let none = Seq::<Seq<char>>::empty();
    let ls = b.lines;
    let k = shape::lead(ls);
    shape::lemma_lead(ls);
    let cs = ls.take(k);
    assert forall|i: int| 0 <= i < cs.len() implies lex::is_comment_spec(#[trigger] cs[i]) by {
        assert(cs[i] == ls[i]);
    }
    let after = sort::entries_spec(rest, none);
    if k < ls.len() {
        let head = ls[k];
        let body = ls.skip(k + 1);
        let tail = body + rest;
        lemma_comments_pend(cs, seq![head] + tail, none);
        assert(none + cs =~= cs);
        assert(ls + rest =~= cs + (seq![head] + tail));
        assert((seq![head] + tail).skip(1) =~= tail);
        lemma_body_ends(head, body, rest);
        let n = body.len() as int;
        assert(tail.take(n) =~= body);
        assert(tail.skip(n) =~= rest);
        assert(cs.push(head) + body =~= ls);
    } else {
        assert(cs =~= ls);
        lemma_comments_pend(cs, rest, none);
        assert(none + cs =~= cs);
        if rest.len() > 0 {
            let tail = rest.skip(1);
            let held = sort::held_spec(cs);
            assert(held =~= seq![chunk(b)]);
            assert(sort::held_spec(none) + seq![Entry::Blank] + sort::entries_spec(tail, none)
                =~= after);
            assert(held + seq![Entry::Blank] + sort::entries_spec(tail, none) =~= seq![chunk(b)]
                + after);
        } else {
            assert(after =~= Seq::empty());
            assert(sort::held_spec(cs) =~= seq![chunk(b)] + after);
        }
    }
}

// ---- reading gives sound entries ----

/// Entries are sound, and begin where the text does.
proof fn lemma_entries_sound(rest: Seq<Seq<char>>, pending: Seq<Seq<char>>)
    requires
        forall|i: int| 0 <= i < pending.len() ==> lex::is_comment_spec(#[trigger] pending[i]),
    ensures
        ({
            let es = sort::entries_spec(rest, pending);
            &&& sound(es)
            &&& es.len() > 0 ==> (if pending.len() > 0 {
                es[0].lines()[0] == pending[0]
            } else {
                rest.len() > 0 && (if lex::is_blank_spec(rest[0]) {
                    es[0] is Blank
                } else {
                    es[0].lines()[0] == rest[0]
                })
            })
        }),
    decreases rest.len(),
{
    let none = Seq::<Seq<char>>::empty();
    let es = sort::entries_spec(rest, pending);
    let held = sort::held_spec(pending);
    if pending.len() > 0 {
        shape::lemma_lead_is(pending, pending.len() as int);
        assert(sane(Entry::Anchor(pending)));
    }
    if rest.len() > 0 {
        let line = rest[0];
        let tail = rest.skip(1);
        if lex::is_blank_spec(line) {
            let more = sort::entries_spec(tail, none);
            lemma_entries_sound(tail, none);
            assert(lex::is_blank_spec(Seq::<char>::empty()));
            let h = held.len() as int;
            assert(es =~= held + (seq![Entry::Blank] + more));
            assert forall|i: int| 0 <= i < es.len() implies sane(#[trigger] es[i]) by {
                if i > h {
                    assert(es[i] == more[i - h - 1]);
                }
            }
            assert forall|i: int| #![trigger es[i]] 0 < i < es.len() implies joined(
                es[i - 1],
                es[i],
            ) by {
                if i > h + 1 {
                    assert(es[i] == more[i - h - 1]);
                    assert(es[i - 1] == more[i - h - 2]);
                }
            }
        } else if lex::is_comment_spec(line) {
            let p = pending.push(line);
            assert forall|i: int| 0 <= i < p.len() implies lex::is_comment_spec(#[trigger] p[i]) by {
                if i < pending.len() {
                    assert(p[i] == pending[i]);
                }
            }
            lemma_entries_sound(tail, p);
        } else {
            lemma_block_sound(rest, pending);
            let n = blank::body_len_spec(line, tail);
            blank::lemma_body_len(line, tail);
            let after = tail.skip(n);
            let more = sort::entries_spec(after, none);
            lemma_entries_sound(after, none);
            let e = es[0];
            assert(es =~= seq![e] + more);
            assert forall|i: int| 0 <= i < es.len() implies sane(#[trigger] es[i]) by {
                if i > 0 {
                    assert(es[i] == more[i - 1]);
                }
            }
            assert forall|i: int| #![trigger es[i]] 0 < i < es.len() implies joined(
                es[i - 1],
                es[i],
            ) by {
                assert(es[i] == more[i - 1]);
                if i > 1 {
                    assert(es[i - 1] == more[i - 2]);
                } else {
                    assert(after.len() > 0);
                }
            }
        }
    }
}

/// The entry of a block that is read, and what may stand behind it.
proof fn lemma_block_sound(rest: Seq<Seq<char>>, pending: Seq<Seq<char>>)
    requires
        forall|i: int| 0 <= i < pending.len() ==> lex::is_comment_spec(#[trigger] pending[i]),
        rest.len() > 0,
        !lex::is_blank_spec(rest[0]),
        !lex::is_comment_spec(rest[0]),
    ensures
        ({
            let es = sort::entries_spec(rest, pending);
            let tail = rest.skip(1);
            let after = tail.skip(blank::body_len_spec(rest[0], tail));
            &&& es.len() > 0
            &&& es == seq![es[0]] + sort::entries_spec(after, Seq::empty())
            &&& sane(es[0])
            &&& !(es[0] is Blank)
            &&& es[0].lines()[0] == if pending.len() > 0 {
                pending[0]
            } else {
                rest[0]
            }
            &&& after.len() > 0 ==> may_follow(block_of(es[0]), after[0]) && (lex::is_blank_spec(
                after[0],
            ) ==> may_follow(block_of(es[0]), Seq::empty()))
        }),
{
    let es = sort::entries_spec(rest, pending);
    let line = rest[0];
    let tail = rest.skip(1);
    let n = blank::body_len_spec(line, tail);
    blank::lemma_body_len(line, tail);
    let body = tail.take(n);
    let after = tail.skip(n);
    let ls = pending.push(line) + body;
    let e = if lex::opens_txn_spec(line) {
        Entry::Txn(sort::date_key_spec(line), ls)
    } else {
        Entry::Anchor(ls)
    };
    assert(es =~= seq![e] + sort::entries_spec(after, Seq::empty()));
    let k = pending.len() as int;
    assert forall|i: int| 0 <= i < k implies lex::is_comment_spec(#[trigger] ls[i]) by {
        assert(ls[i] == pending[i]);
    }
    assert(ls[k] == line);
    shape::lemma_lead_is(ls, k);
    assert(ls.skip(k + 1) =~= body);
    shape::lemma_unclosed(tail);
    blank::lemma_indented_len(tail);
    assert(shape::is_body(line, body)) by {
        if !lex::opens_block_spec(line) {
            assert forall|i: int| 0 <= i < body.len() implies lex::is_indented_spec(
                #[trigger] body[i],
            ) by {
                assert(body[i] == tail[i]);
            }
        }
    }
    assert(shape::valid(block_of(e)));
    assert(chunk(block_of(e)) == e);
    if after.len() > 0 {
        assert(after[0] == tail[n]);
    }
}

/// Sound entries are read from their lines again.
proof fn lemma_read_again(es: Seq<Entry>)
    requires
        sound(es),
    ensures
        sort::entries_spec(sort::entry_lines_spec(es), Seq::empty()) == es,
    decreases es.len(),
{
    let none = Seq::<Seq<char>>::empty();
    if es.len() == 0 {
        assert(sort::entry_lines_spec(es) =~= none);
        assert(sort::entries_spec(none, none) =~= es);
    } else {
        let e = es[0];
        let more = es.skip(1);
        assert(sound(more)) by {
            assert forall|i: int| 0 <= i < more.len() implies sane(#[trigger] more[i]) by {
                assert(more[i] == es[i + 1]);
            }
            assert forall|i: int| #![trigger more[i]] 0 < i < more.len() implies joined(
                more[i - 1],
                more[i],
            ) by {
                assert(more[i] == es[i + 1]);
                assert(more[i - 1] == es[i]);
            }
        }
        lemma_read_again(more);
        let rest = sort::entry_lines_spec(more);
        order::lemma_entry_lines_concat(seq![e], more);
        order::lemma_entry_lines_one(e);
        assert(seq![e] + more =~= es);
        let all = sort::entry_lines_spec(es);
        assert(all == e.lines() + rest);
        assert(sane(e));
        if e is Blank {
            assert(lex::is_blank_spec(Seq::<char>::empty()));
            assert(all[0] =~= Seq::<char>::empty());
            assert(all.skip(1) =~= rest);
            assert(sort::held_spec(none) + seq![Entry::Blank] + more =~= es);
        } else {
            if more.len() > 0 {
                assert(es[1] == more[0]);
                assert(joined(es[0], es[1]));
                assert(sane(es[1]));
                order::lemma_entry_lines_concat(seq![more[0]], more.skip(1));
                order::lemma_entry_lines_one(more[0]);
                assert(seq![more[0]] + more.skip(1) =~= more);
                assert(rest[0] == more[0].lines()[0]);
            } else {
                assert(rest =~= none);
            }
            lemma_block_read(block_of(e), rest);
        }
    }
}

// ---- sorting keeps entries sound ----

/// Whether every transaction among entries is one as they are read.
pub open spec fn txns_sane(es: Seq<Entry>) -> bool {
    forall|i: int| 0 <= i < es.len() && es[i] is Txn ==> sane(#[trigger] es[i])
}

proof fn lemma_sorted_sane(run: Seq<Entry>)
    requires
        txns_sane(run),
    ensures
        txns_sane(sort::sorted_spec(run)),
    decreases run.len(),
{
    if run.len() > 0 {
        let f = run.drop_last();
        assert forall|i: int| 0 <= i < f.len() && f[i] is Txn implies sane(#[trigger] f[i]) by {
            assert(f[i] == run[i]);
        }
        lemma_sorted_sane(f);
        order::lemma_sorted(f);
        if run.last() is Txn {
            let b = sort::sorted_spec(f);
            let x = run.last();
            order::lemma_slot(b, x.key());
            let p = sort::slot_spec(b, x.key());
            let s = sort::sorted_spec(run);
            assert(sane(run[run.len() - 1]));
            assert forall|i: int| 0 <= i < s.len() && s[i] is Txn implies sane(#[trigger] s[i]) by {
                if i < p {
                    assert(s[i] == b[i]);
                } else if i > p {
                    assert(s[i] == b[i - 1]);
                }
            }
        }
    }
}

proof fn lemma_run_sane(run: Seq<Entry>)
    requires
        txns_sane(run),
    ensures
        txns_sane(sort::sort_run_spec(run)),
{
    let s = sort::sorted_spec(run);
    let out = sort::sort_run_spec(run);
    lemma_sorted_sane(run);
    order::lemma_sorted(run);
    order::lemma_refill_len(run, s);
    assert forall|i: int| 0 <= i < out.len() && out[i] is Txn implies sane(#[trigger] out[i]) by {
        order::lemma_refill_at(run, s, i);
        if run[i] is Txn {
            order::lemma_txns(run.take(i));
            order::lemma_txns_grow(run, i + 1, run.len() as int);
            assert(run.take(i + 1).drop_last() =~= run.take(i));
            assert(run.take(run.len() as int) =~= run);
            assert(sane(s[sort::txns_spec(run.take(i))]));
        }
    }
}

proof fn lemma_runs_sane(rest: Seq<Entry>, run: Seq<Entry>)
    requires
        txns_sane(rest),
        txns_sane(run),
    ensures
        txns_sane(sort::sort_runs_spec(rest, run)),
    decreases rest.len(),
{
    let out = sort::sort_runs_spec(rest, run);
    lemma_run_sane(run);
    let s = sort::sort_run_spec(run);
    if rest.len() > 0 {
        let tail = rest.skip(1);
        assert forall|i: int| 0 <= i < tail.len() && tail[i] is Txn implies sane(
            #[trigger] tail[i],
        ) by {
            assert(tail[i] == rest[i + 1]);
        }
        if rest[0] is Anchor {
            lemma_runs_sane(tail, Seq::empty());
            let more = sort::sort_runs_spec(tail, Seq::empty());
            let n = s.len() as int;
            assert forall|i: int| 0 <= i < out.len() && out[i] is Txn implies sane(
                #[trigger] out[i],
            ) by {
                if i < n {
                    assert(out[i] == s[i]);
                } else if i > n {
                    assert(out[i] == more[i - n - 1]);
                }
            }
        } else {
            let r = run.push(rest[0]);
            assert forall|i: int| 0 <= i < r.len() && r[i] is Txn implies sane(#[trigger] r[i]) by {
                if i < run.len() {
                    assert(r[i] == run[i]);
                } else {
                    assert(r[i] == rest[0]);
                }
            }
            lemma_runs_sane(tail, r);
        }
    }
}

/// A transaction begins with a line that is neither indented nor blank.
proof fn lemma_txn_begins(e: Entry)
    requires
        e is Txn,
        sane(e),
    ensures
        e.lines().len() > 0,
        !lex::is_indented_spec(e.lines()[0]),
        !lex::is_blank_spec(e.lines()[0]),
        ({
            let k = shape::lead(e.lines());
            &&& k < e.lines().len()
            &&& lex::opens_txn_spec(e.lines()[k])
            &&& !lex::opens_block_spec(e.lines()[k])
        }),
{
    let ls = e.lines();
    let k = shape::lead(ls);
    shape::lemma_lead(ls);
    let head = ls[k];
    assert(!text::is_white(ls[0][0])) by {
        if k > 0 {
            assert(lex::is_comment_spec(ls[0]));
        }
    }
    reveal_strlit("comment");
    reread::lemma_rstrip(head);
    if lex::opens_block_spec(head) {
        assert(lex::rstrip_spec(head)[0] == head[0]);
    }
}

/// Sorted entries are sound.
proof fn lemma_sort_sound(es: Seq<Entry>, out: Seq<Entry>)
    requires
        sound(es),
        order::sorted_between(es, out),
        txns_sane(out),
    ensures
        sound(out),
{
    assert forall|i: int| 0 <= i < out.len() implies sane(#[trigger] out[i]) by {
        assert(sane(es[i]));
    }
    assert forall|i: int| #![trigger out[i]] 0 < i < out.len() implies joined(
        out[i - 1],
        out[i],
    ) by {
        assert(joined(es[i - 1], es[i]));
        assert(sane(es[i]) && sane(es[i - 1]) && sane(out[i]) && sane(out[i - 1]));
        if es[i] is Txn {
            lemma_txn_begins(es[i]);
            assert(out[i] is Txn);
            lemma_txn_begins(out[i]);
        }
        if es[i - 1] is Txn {
            lemma_txn_begins(es[i - 1]);
            assert(out[i - 1] is Txn);
            lemma_txn_begins(out[i - 1]);
        }
    }
}

// ---- entries in order ----

/// Whether transactions stand in date order between barriers, the last one
/// before them having a date.
pub open spec fn in_order(es: Seq<Entry>, last: Option<DateKey>) -> bool
    decreases es.len(),
{
    if es.len() == 0 {
        true
    } else {
        match es[0] {
            Entry::Blank => in_order(es.skip(1), last),
            Entry::Anchor(_) => in_order(es.skip(1), None),
            Entry::Txn(k, _) => (last matches Some(m) ==> m.le(k)) && in_order(
                es.skip(1),
                Some(k),
            ),
        }
    }
}

/// The same of blocks.
pub open spec fn blocks_in_order(bs: Seq<Block>, last: Option<DateKey>) -> bool
    decreases bs.len(),
{
    if bs.len() == 0 {
        true
    } else if bs[0].txn {
        let k = sort::date_key_spec(bs[0].lines[shape::lead(bs[0].lines)]);
        (last matches Some(m) ==> m.le(k)) && blocks_in_order(bs.skip(1), Some(k))
    } else {
        blocks_in_order(bs.skip(1), None)
    }
}

/// Sorted entries are in order.
proof fn lemma_sorted_in_order(es: Seq<Entry>, out: Seq<Entry>, n: int, last: Option<DateKey>)
    requires
        order::sorted_between(es, out),
        0 <= n <= out.len(),
        last matches Some(m) ==> exists|i: int|
            0 <= i < n && #[trigger] out[i] is Txn && out[i].key() == m && order::within(es, i, n),
    ensures
        in_order(out.skip(n), last),
    decreases out.len() - n,
{
    let rest = out.skip(n);
    if n < out.len() {
        assert(rest[0] == out[n]);
        assert(rest.skip(1) =~= out.skip(n + 1));
        match out[n] {
            Entry::Blank => {
                if let Some(m) = last {
                    let i = choose|i: int|
                        0 <= i < n && #[trigger] out[i] is Txn && out[i].key() == m
                            && order::within(es, i, n);
                    assert(es[n] is Blank);
                    assert(order::within(es, i, n + 1));
                    assert(out[i] is Txn);
                }
                lemma_sorted_in_order(es, out, n + 1, last);
            },
            Entry::Anchor(_) => {
                lemma_sorted_in_order(es, out, n + 1, None);
            },
            Entry::Txn(k, _) => {
                assert(es[n] is Txn);
                if let Some(m) = last {
                    let i = choose|i: int|
                        0 <= i < n && #[trigger] out[i] is Txn && out[i].key() == m
                            && order::within(es, i, n);
                    assert(es[i] is Txn);
                    assert(out[i].key().le(out[n].key()));
                }
                assert(out[n] is Txn && out[n].key() == k && order::within(es, n, n + 1));
                lemma_sorted_in_order(es, out, n + 1, Some(k));
            },
        }
    }
}

/// The date of the last transaction of a run.
pub open spec fn last_date(run: Seq<Entry>) -> Option<DateKey>
    decreases run.len(),
{
    if run.len() == 0 {
        None
    } else if run.last() is Txn {
        Some(run.last().key())
    } else {
        last_date(run.drop_last())
    }
}

/// The transactions of a run.
pub open spec fn txns_in(run: Seq<Entry>) -> Seq<Entry>
    decreases run.len(),
{
    if run.len() == 0 {
        Seq::empty()
    } else if run.last() is Txn {
        txns_in(run.drop_last()).push(run.last())
    } else {
        txns_in(run.drop_last())
    }
}

/// Whether the transactions of a run are in order, from the back.
pub open spec fn run_in_order(run: Seq<Entry>) -> bool
    decreases run.len(),
{
    if run.len() == 0 {
        true
    } else {
        &&& run_in_order(run.drop_last())
        &&& run.last() is Txn ==> (last_date(run.drop_last()) matches Some(m) ==> m.le(
            run.last().key(),
        ))
    }
}

/// A run in order is sorted to itself.
proof fn lemma_run_stays(run: Seq<Entry>)
    requires
        run_in_order(run),
    ensures
        sort::sorted_spec(run) == txns_in(run),
        txns_in(run).len() == sort::txns_spec(run),
        last_date(run) == (if txns_in(run).len() == 0 {
            None
        } else {
            Some(txns_in(run).last().key())
        }),
        sort::refill_spec(run, txns_in(run)) == run,
    decreases run.len(),
{
    if run.len() == 0 {
        assert(sort::sorted_spec(run) =~= txns_in(run));
        assert(sort::refill_spec(run, txns_in(run)) =~= run);
    } else {
        let f = run.drop_last();
        lemma_run_stays(f);
        let b = txns_in(f);
        let x = run.last();
        if x is Txn {
            assert(b.insert(b.len() as int, x) =~= b.push(x));
            lemma_refill_more(f, b, x);
            assert(b.push(x)[sort::txns_spec(f)] == x);
            assert(sort::refill_spec(run, b.push(x)) =~= run);
        } else {
            assert(sort::refill_spec(run, b) =~= run);
        }
    }
}

/// More transactions than a run has leave it as it is refilled.
proof fn lemma_refill_more(run: Seq<Entry>, s: Seq<Entry>, x: Entry)
    requires
        s.len() >= sort::txns_spec(run),
    ensures
        sort::refill_spec(run, s.push(x)) == sort::refill_spec(run, s),
    decreases run.len(),
{
    if run.len() > 0 {
        order::lemma_txns(run.drop_last());
        lemma_refill_more(run.drop_last(), s, x);
    }
}

/// Entries in order are sorted to themselves.
proof fn lemma_order_stays(rest: Seq<Entry>, run: Seq<Entry>)
    requires
        run_in_order(run),
        in_order(rest, last_date(run)),
    ensures
        sort::sort_runs_spec(rest, run) == run + rest,
    decreases rest.len(),
{
    lemma_run_stays(run);
    if rest.len() == 0 {
        assert(run + rest =~= run);
    } else {
        let tail = rest.skip(1);
        if rest[0] is Anchor {
            lemma_order_stays(tail, Seq::empty());
            assert(run.push(rest[0]) + (Seq::<Entry>::empty() + tail) =~= run + rest);
        } else {
            let r = run.push(rest[0]);
            assert(r.drop_last() =~= run);
            lemma_order_stays(tail, r);
            assert(r + tail =~= run + rest);
        }
    }
}

/// Reading entries and reading blocks find the same order.
proof fn lemma_same_order(
    rest: Seq<Seq<char>>,
    pending: Seq<Seq<char>>,
    b: bool,
    last: Option<DateKey>,
)
    requires
        forall|i: int| 0 <= i < pending.len() ==> lex::is_comment_spec(#[trigger] pending[i]),
    ensures
        in_order(sort::entries_spec(rest, pending), last) == blocks_in_order(
            blank::parse_spec(rest, pending, b),
            last,
        ),
    decreases rest.len(),
{
    let none = Seq::<Seq<char>>::empty();
    let es = sort::entries_spec(rest, pending);
    let bs = blank::parse_spec(rest, pending, b);
    let held = sort::held_spec(pending);
    let alone = blank::comments_spec(pending, b);
    if rest.len() == 0 {
        if pending.len() > 0 {
            assert(es.skip(1) =~= Seq::empty());
            assert(bs.skip(1) =~= Seq::empty());
            assert(in_order(es.skip(1), None));
            assert(blocks_in_order(bs.skip(1), None));
        }
        assert(in_order(es, last) == blocks_in_order(bs, last));
    } else {
        let line = rest[0];
        let tail = rest.skip(1);
        if lex::is_blank_spec(line) {
            let more = sort::entries_spec(tail, none);
            let after = blank::parse_spec(tail, none, true);
            let gap = seq![Entry::Blank] + more;
            assert(gap.skip(1) =~= more);
            assert(gap[0] is Blank);
            assert(in_order(gap, None) == in_order(more, None));
            assert(in_order(gap, last) == in_order(more, last));
            if pending.len() > 0 {
                lemma_same_order(tail, none, true, None);
                assert(es.skip(1) =~= gap);
                assert(bs.skip(1) =~= after);
                assert(es[0] == Entry::Anchor(pending));
                assert(!bs[0].txn);
                assert(in_order(es, last) == blocks_in_order(bs, last));
            } else {
                lemma_same_order(tail, none, true, last);
                assert(es =~= gap);
                assert(bs =~= after);
                assert(in_order(es, last) == blocks_in_order(bs, last));
            }
        } else if lex::is_comment_spec(line) {
            let p = pending.push(line);
            assert forall|i: int| 0 <= i < p.len() implies lex::is_comment_spec(#[trigger] p[i]) by {
                if i < pending.len() {
                    assert(p[i] == pending[i]);
                }
            }
            lemma_same_order(tail, p, b, last);
        } else {
            blank::lemma_body_len(line, tail);
            let n = blank::body_len_spec(line, tail);
            let ls = pending.push(line) + tail.take(n);
            let after = tail.skip(n);
            let k = pending.len() as int;
            assert forall|i: int| 0 <= i < k implies lex::is_comment_spec(#[trigger] ls[i]) by {
                assert(ls[i] == pending[i]);
            }
            assert(ls[k] == line);
            shape::lemma_lead_is(ls, k);
            let next = if lex::opens_txn_spec(line) {
                Some(sort::date_key_spec(line))
            } else {
                None
            };
            lemma_same_order(after, none, false, next);
            assert(es.skip(1) =~= sort::entries_spec(after, none));
            assert(bs.skip(1) =~= blank::parse_spec(after, none, false));
            assert(bs[0].lines == ls);
            assert(in_order(es, last) == blocks_in_order(bs, last));
        }
    }
}

// ---- blocks that are written ----

/// The entries of blocks that follow another.
pub open spec fn entries_behind(prev: Block, bs: Seq<Block>) -> Seq<Entry>
    decreases bs.len(),
{
    if bs.len() == 0 {
        Seq::empty()
    } else {
        (if blank::gap_spec(prev, bs[0]).len() > 0 {
            seq![Entry::Blank]
        } else {
            Seq::empty()
        }) + (seq![chunk(bs[0])] + entries_behind(bs[0], bs.skip(1)))
    }
}

/// Written blocks are read as their entries, which write the same lines.
proof fn lemma_behind_read(prev: Block, bs: Seq<Block>)
    requires
        shape::chain(bs),
    ensures
        sort::entries_spec(shape::follow(prev, bs), Seq::empty()) == entries_behind(prev, bs),
        sort::entry_lines_spec(entries_behind(prev, bs)) == shape::follow(prev, bs),
    decreases bs.len(), 1int,
{
    let none = Seq::<Seq<char>>::empty();
    if bs.len() == 0 {
        assert(shape::follow(prev, bs) =~= none);
        assert(sort::entries_spec(none, none) =~= Seq::empty());
        assert(sort::entry_lines_spec(Seq::<Entry>::empty()) =~= none);
    } else {
        let b = bs[0];
        let more = bs.skip(1);
        let gap = blank::gap_spec(prev, b);
        let after = shape::follow(b, more);
        shape::lemma_chain_skip(bs);
        lemma_behind_read(b, more);
        lemma_front_read(bs);
        let behind = seq![chunk(b)] + entries_behind(b, more);
        assert(shape::follow(prev, bs) =~= gap + (b.lines + after));
        if gap.len() > 0 {
            let empty = Seq::<char>::empty();
            let all = gap + (b.lines + after);
            assert(lex::is_blank_spec(empty));
            assert(all[0] =~= empty);
            assert(all.skip(1) =~= b.lines + after);
            assert(sort::held_spec(none) + seq![Entry::Blank] + behind =~= seq![Entry::Blank]
                + behind);
            order::lemma_entry_lines_concat(seq![Entry::Blank], behind);
            order::lemma_entry_lines_one(Entry::Blank);
            assert(gap =~= seq![empty]);
        } else {
            assert(gap + (b.lines + after) =~= b.lines + after);
            assert(Seq::<Entry>::empty() + behind =~= behind);
        }
    }
}

/// The first of written blocks, and those behind it.
proof fn lemma_front_read(bs: Seq<Block>)
    requires
        shape::chain(bs),
        bs.len() > 0,
    ensures
        ({
            let ls = bs[0].lines + shape::follow(bs[0], bs.skip(1));
            let es = seq![chunk(bs[0])] + entries_behind(bs[0], bs.skip(1));
            &&& sort::entries_spec(ls, Seq::empty()) == es
            &&& sort::entry_lines_spec(es) == ls
        }),
    decreases bs.len(), 0int,
{
    let b = bs[0];
    let more = bs.skip(1);
    let after = shape::follow(b, more);
    shape::lemma_chain_skip(bs);
    lemma_behind_read(b, more);
    if more.len() > 0 {
        let gap = blank::gap_spec(b, more[0]);
        assert(lex::is_blank_spec(Seq::<char>::empty()));
        assert(shape::valid(more[0]));
        if gap.len() > 0 {
            assert(after[0] =~= Seq::<char>::empty());
        } else {
            assert(after[0] == more[0].lines[0]);
        }
    }
    lemma_block_read(b, after);
    order::lemma_entry_lines_concat(seq![chunk(b)], entries_behind(b, more));
    order::lemma_entry_lines_one(chunk(b));
}

/// Written entries and blocks are in the same order.
proof fn lemma_behind_order(prev: Block, bs: Seq<Block>, last: Option<DateKey>)
    ensures
        in_order(entries_behind(prev, bs), last) == blocks_in_order(bs, last),
    decreases bs.len(),
{
    if bs.len() > 0 {
        let b = bs[0];
        let more = bs.skip(1);
        let after = entries_behind(b, more);
        let behind = seq![chunk(b)] + after;
        let next = if b.txn {
            Some(sort::date_key_spec(b.lines[shape::lead(b.lines)]))
        } else {
            None
        };
        lemma_behind_order(b, more, next);
        assert(behind.skip(1) =~= after);
        assert(behind[0] == chunk(b));
        assert(in_order(behind, last) == blocks_in_order(bs, last));
        let all = entries_behind(prev, bs);
        if blank::gap_spec(prev, b).len() > 0 {
            assert(all.skip(1) =~= behind);
            assert(all[0] is Blank);
        } else {
            assert(all =~= behind);
        }
    }
}

// ---- lines of the same kinds ----

/// Whether a line that heads a transaction and another have the same date.
pub open spec fn same_date(a: Seq<char>, b: Seq<char>) -> bool {
    lex::opens_txn_spec(a) ==> sort::date_key_spec(a) == sort::date_key_spec(b)
}

/// Whether lines are of the same kinds and have the same dates.
pub open spec fn all_dated(a: Seq<Seq<char>>, b: Seq<Seq<char>>) -> bool {
    &&& shape::all_alike(a, b)
    &&& forall|i: int| 0 <= i < a.len() ==> same_date(#[trigger] a[i], b[i])
}

proof fn lemma_part_dated(a: Seq<Seq<char>>, b: Seq<Seq<char>>, i: int, j: int)
    requires
        all_dated(a, b),
        0 <= i <= j <= a.len(),
    ensures
        all_dated(a.subrange(i, j), b.subrange(i, j)),
{
    let x = a.subrange(i, j);
    let y = b.subrange(i, j);
    assert forall|k: int| 0 <= k < x.len() implies shape::alike(#[trigger] x[k], y[k]) by {
        assert(shape::alike(a[i + k], b[i + k]));
    }
    assert forall|k: int| 0 <= k < x.len() implies same_date(#[trigger] x[k], y[k]) by {
        assert(same_date(a[i + k], b[i + k]));
    }
}

/// A block of the same lines has the same date.
proof fn lemma_block_date(b: Block, ls: Seq<Seq<char>>)
    requires
        shape::valid(b),
        all_dated(b.lines, ls),
    ensures
        shape::lead(ls) == shape::lead(b.lines),
        b.txn ==> sort::date_key_spec(ls[shape::lead(ls)]) == sort::date_key_spec(
            b.lines[shape::lead(b.lines)],
        ),
{
    shape::lemma_alike_lead(b.lines, ls);
    shape::lemma_lead(b.lines);
    if b.txn {
        assert(same_date(b.lines[shape::lead(b.lines)], ls[shape::lead(ls)]));
    }
}

proof fn lemma_recut_order(
    prev: Block,
    bs: Seq<Block>,
    ls: Seq<Seq<char>>,
    last: Option<DateKey>,
)
    requires
        shape::chain(bs),
        all_dated(shape::follow(prev, bs), ls),
    ensures
        blocks_in_order(shape::recut(prev, bs, ls), last) == blocks_in_order(bs, last),
    decreases bs.len(),
{
    if bs.len() > 0 {
        let b = bs[0];
        let more = bs.skip(1);
        let gap = blank::gap_spec(prev, b);
        let g = gap.len() as int;
        let n = b.lines.len() as int;
        let after = shape::follow(b, more);
        let all = shape::follow(prev, bs);
        let z = all.len() as int;
        assert(all == gap + b.lines + after);
        lemma_part_dated(all, ls, g, g + n);
        lemma_part_dated(all, ls, g + n, z);
        assert(all.subrange(g, g + n) =~= b.lines);
        assert(all.subrange(g + n, z) =~= after);
        assert(ls.subrange(g + n, z) =~= ls.skip(g + n));
        shape::lemma_chain_skip(bs);
        assert(shape::valid(bs[0]));
        lemma_block_date(b, ls.subrange(g, g + n));
        let next = if b.txn {
            Some(sort::date_key_spec(b.lines[shape::lead(b.lines)]))
        } else {
            None
        };
        lemma_recut_order(b, more, ls.skip(g + n), next);
        let cs = shape::recut(prev, bs, ls);
        assert(cs.skip(1) =~= shape::recut(b, more, ls.skip(g + n)));
        assert(cs[0] == Block { lines: ls.subrange(g, g + n), ..b });
    }
}

/// The lines of blocks that are in order are sorted to themselves.
pub proof fn lemma_chain_sorted(cs: Seq<Block>)
    requires
        shape::chain(cs),
        cs.len() > 0,
        blocks_in_order(cs, None),
    ensures
        sort::sort_entries_spec(blank::join_blocks_spec(cs)) == blank::join_blocks_spec(cs),
{
    shape::lemma_join_front(cs);
    lemma_front_read(cs);
    let c = cs[0];
    let ds = cs.skip(1);
    let es = seq![chunk(c)] + entries_behind(c, ds);
    let next = if c.txn {
        Some(sort::date_key_spec(c.lines[shape::lead(c.lines)]))
    } else {
        None
    };
    lemma_behind_order(c, ds, next);
    assert(es.skip(1) =~= entries_behind(c, ds));
    assert(es[0] == chunk(c));
    assert(in_order(es, None));
    lemma_order_stays(es, Seq::empty());
    assert(Seq::<Entry>::empty() + es =~= es);
}

/// Lines of the same kinds and dates as normalized ones that are in order are
/// sorted to themselves.
proof fn lemma_resorted(src: Seq<Seq<char>>, ws: Seq<Seq<char>>)
    requires
        all_dated(blank::normalize_spec(src), ws),
        blocks_in_order(blank::parse_spec(src, Seq::empty(), false), None),
    ensures
        sort::sort_entries_spec(ws) == ws,
{
    let none = Seq::<Seq<char>>::empty();
    let bs = blank::parse_spec(src, none, false);
    shape::lemma_parse_chain(src, none, false);
    if bs.len() == 0 {
        assert(ws =~= none);
        assert(sort::entries_spec(none, none) =~= Seq::empty());
        assert(sort::sort_run_spec(Seq::empty()) =~= Seq::empty());
        assert(sort::sort_entries_spec(ws) =~= ws);
    } else {
        shape::lemma_join_front(bs);
        let b = bs[0];
        let n = b.lines.len() as int;
        let more = bs.skip(1);
        let after = shape::follow(b, more);
        let all = b.lines + after;
        let z = all.len() as int;
        let mine = ws.take(n);
        let rest = ws.skip(n);
        lemma_part_dated(all, ws, 0, n);
        lemma_part_dated(all, ws, n, z);
        assert(all.subrange(0, n) =~= b.lines);
        assert(all.subrange(n, z) =~= after);
        assert(ws.subrange(0, n) =~= mine);
        assert(ws.subrange(n, z) =~= rest);
        let c = Block { lines: mine, ..b };
        shape::lemma_chain_skip(bs);
        shape::lemma_recut(b, more, rest);
        let ds = shape::recut(b, more, rest);
        assert(shape::valid(bs[0]));
        shape::lemma_alike_valid(b, c);
        if ds.len() > 0 {
            assert(shape::linked(bs[0], bs[1]));
            assert(shape::valid(bs[1]));
            shape::lemma_alike_linked(b, more[0], c, ds[0]);
        }
        shape::lemma_chain_cons(c, ds);
        let cs = seq![c] + ds;
        assert(cs[0] == c);
        assert(cs.skip(1) =~= ds);
        assert(shape::follow(c, ds) == rest);
        assert(mine + rest =~= ws);
        lemma_front_read(cs);
        let es = seq![chunk(c)] + entries_behind(c, ds);
        lemma_block_date(b, mine);
        let next = if b.txn {
            Some(sort::date_key_spec(b.lines[shape::lead(b.lines)]))
        } else {
            None
        };
        assert(blocks_in_order(more, next));
        lemma_recut_order(b, more, rest, next);
        lemma_behind_order(c, ds, next);
        assert(es.skip(1) =~= entries_behind(c, ds));
        assert(es[0] == chunk(c));
        assert(in_order(es, None));
        lemma_order_stays(es, Seq::empty());
        assert(Seq::<Entry>::empty() + es =~= es);
    }
}

/// What sorting leaves is in order, and sound.
pub proof fn lemma_sorted_blocks(ls: Seq<Seq<char>>)
    ensures
        ({
            let out = sort::sort_runs_spec(sort::entries_spec(ls, Seq::empty()), Seq::empty());
            &&& sound(out)
            &&& blocks_in_order(
                blank::parse_spec(sort::sort_entries_spec(ls), Seq::empty(), false),
                None,
            )
        }),
{
    let none = Seq::<Seq<char>>::empty();
    let es = sort::entries_spec(ls, none);
    let out = sort::sort_runs_spec(es, Seq::empty());
    lemma_entries_sound(ls, none);
    order::sorting_is_bounded_and_stable(ls);
    assert(txns_sane(es));
    lemma_runs_sane(es, Seq::empty());
    lemma_sort_sound(es, out);
    lemma_read_again(out);
    lemma_sorted_in_order(es, out, 0, None);
    assert(out.skip(0) =~= out);
    lemma_same_order(sort::sort_entries_spec(ls), none, false, None);
}

/// A line and what it is written as have the same date.
pub proof fn lemma_date_kept(
    acc_w: nat,
    num_w: nat,
    at: Classify,
    l: Seq<char>,
    ctx: Ctx,
    opts: Options,
)
    ensures
        same_date(l, laws::line_of(acc_w, num_w, l, laws::class_of(at, l, ctx, opts))),
{
    if lex::opens_txn_spec(l) {
        let r = lex::rstrip_spec(l);
        reread::lemma_rstrip(l);
        let w = l.skip(r.len() as int);
        text::lemma_run_back(l, CharClass::White, true);
        assert(text::all_spec(w, CharClass::White));
        assert(r + w =~= l);
        tokens::lemma_words_concat(r, w);
        tokens::lemma_words_white(w);
        assert(text::words_spec(l) =~= text::words_spec(r));
    }
}

/// No line that sorting leaves holds a newline where none did.
pub proof fn lemma_sorted_without(ls: Seq<Seq<char>>)
    requires
        forall|i: int| 0 <= i < ls.len() ==> !(#[trigger] ls[i]).contains('\n'),
    ensures
        forall|i: int|
            0 <= i < sort::sort_entries_spec(ls).len() ==> !(
            #[trigger] sort::sort_entries_spec(ls)[i]).contains('\n'),
{
    let es = sort::entries_spec(ls, Seq::empty());
    let a = sort::entry_lines_spec(es);
    let b = sort::sort_entries_spec(ls);
    order::sorting_keeps_the_lines(ls);
    a.to_multiset_ensures();
    b.to_multiset_ensures();
    assert forall|i: int| 0 <= i < b.len() implies !(#[trigger] b[i]).contains('\n') by {
        assert(b.contains(b[i]));
        assert(b.to_multiset().contains(b[i]));
        assert(a.contains(b[i]));
        let j = choose|j: int| 0 <= j < a.len() && a[j] == b[i];
        assert(a[j] == ls[j] || a[j].len() == 0);
    }
}

/// Sorting and formatting are idempotent together: a text that was sorted and
/// formatted is sorted and formatted to itself, whatever the styles are.
pub proof fn sorting_and_formatting_is_idempotent(s: Seq<char>, ctx: Ctx)
    requires
        settle::clean(ctx),
    ensures
        ({
            let opts = Options { sort: true, explicit: false };
            let out = fmt::format_spec(s, ctx, opts);
            fmt::format_spec(out, ctx, opts) == out
        }),
{
    let opts = Options { sort: true, explicit: false };
    let src = sort::sort_entries_spec(fmt::lines_spec(s));
    let ls = blank::normalize_spec(src);
    tokens::lemma_lines_hold_no_newline(s);
    lemma_sorted_without(fmt::lines_spec(s));
    laws::lemma_normal_without(src);
    steady::lemma_postings_settle(ls, ctx, opts);
    laws::lemma_reflowed(src, ctx, opts);
    let ws = fmt::format_lines_spec(ls, ctx, opts);
    lemma_sorted_blocks(fmt::lines_spec(s));
    laws::lemma_format_lines(ls, ctx, opts);
    laws::lemma_classes(ls, ctx, opts);
    let styled = fmt::styled_spec(ls, ctx, opts);
    let ps = fmt::all_posts(styled);
    let acc_w = fmt::account_width(ps);
    let num_w = fmt::number_width(ps);
    assert forall|i: int| 0 <= i < ls.len() implies same_date(#[trigger] ls[i], ws[i]) by {
        let at = Classify::over(ls.take(i), ctx, opts);
        assert(styled[i] == laws::class_of(at, ls[i], ctx, opts));
        lemma_date_kept(acc_w, num_w, at, ls[i], ctx, opts);
    }
    lemma_resorted(src, ws);
}

// ---- declared styles ----

/// Lines with blank ones emptied declare the same.
proof fn lemma_emptied_scan(a: Seq<Seq<char>>, b: Seq<Seq<char>>)
    requires
        order::same_lines(a, b),
    ensures
        Scan::over(a) == Scan::over(b),
    decreases a.len(),
{
    if a.len() > 0 {
        let x = a.drop_last();
        let y = b.drop_last();
        assert(order::same_lines(x, y)) by {
            assert forall|i: int| 0 <= i < x.len() implies #[trigger] x[i] == y[i] || x[i].len()
                == 0 && lex::is_blank_spec(y[i]) by {
                assert(a[i] == x[i]);
            }
        }
        lemma_emptied_scan(x, y);
        let st = Scan::over(x);
        let l = a[a.len() - 1];
        let m = b[b.len() - 1];
        assert(a[a.len() - 1] == l);
        if l != m {
            assert(lex::is_blank_spec(l));
            if st.opaque {
                lemma_blank_closes_nothing(l);
                lemma_blank_closes_nothing(m);
            } else {
                scanned::lemma_blank_step(st, l);
                scanned::lemma_blank_step(st, m);
            }
        }
    }
}

proof fn lemma_blank_closes_nothing(l: Seq<char>)
    requires
        lex::is_blank_spec(l),
    ensures
        !lex::closes_block_spec(l),
{
    reveal_strlit("end comment");
    reread::lemma_rstrip(l);
}

/// Sorted entries declare what the entries do.
proof fn lemma_sorted_scan(es: Seq<Entry>, out: Seq<Entry>, n: int)
    requires
        sound(es),
        sound(out),
        order::sorted_between(es, out),
        0 <= n <= es.len(),
    ensures
        ({
            let a = scanned::scan_on(Scan::start(), sort::entry_lines_spec(es.take(n)));
            let b = scanned::scan_on(Scan::start(), sort::entry_lines_spec(out.take(n)));
            &&& a == b
            &&& n < es.len() ==> !a.opaque
        }),
    decreases n,
{
    let st = Scan::start();
    if n == 0 {
        assert(es.take(0) =~= out.take(0));
        assert(es.take(0) =~= Seq::empty());
        assert(sort::entry_lines_spec(es.take(0)) =~= Seq::empty());
    } else {
        let m = n - 1;
        lemma_sorted_scan(es, out, m);
        let at = scanned::scan_on(st, sort::entry_lines_spec(es.take(m)));
        assert(es.take(n).drop_last() =~= es.take(m));
        assert(out.take(n).drop_last() =~= out.take(m));
        assert(es.take(n).last() == es[m]);
        assert(out.take(n).last() == out[m]);
        scanned::lemma_on_concat(st, sort::entry_lines_spec(es.take(m)), es[m].lines());
        scanned::lemma_on_concat(st, sort::entry_lines_spec(out.take(m)), out[m].lines());
        assert(sane(es[m]) && sane(out[m]));
        if es[m] is Blank {
            let empty = Seq::<char>::empty();
            assert(lex::is_blank_spec(empty));
            scanned::lemma_blank_step(at, empty);
            scanned::lemma_on_front(at, es[m].lines());
            assert(es[m].lines().skip(1) =~= Seq::empty());
            assert(es[m].lines()[0] =~= empty);
        } else {
            scanned::lemma_block_on(at, block_of(es[m]));
            scanned::lemma_block_on(at, block_of(out[m]));
            if n < es.len() {
                assert(joined(es[n - 1], es[n]));
            }
        }
    }
}

/// Sorting leaves the declared styles of a text alone.
pub proof fn sorting_keeps_the_styles(ls: Seq<Seq<char>>)
    ensures
        fmt::scan_ctx_spec(sort::sort_entries_spec(ls)) == fmt::scan_ctx_spec(ls),
{
    let none = Seq::<Seq<char>>::empty();
    let es = sort::entries_spec(ls, none);
    let out = sort::sort_runs_spec(es, Seq::empty());
    lemma_entries_sound(ls, none);
    lemma_sorted_blocks(ls);
    order::sorting_is_bounded_and_stable(ls);
    order::sorting_keeps_the_lines(ls);
    lemma_emptied_scan(sort::entry_lines_spec(es), ls);
    let n = es.len() as int;
    lemma_sorted_scan(es, out, n);
    assert(es.take(n) =~= es);
    assert(out.take(n) =~= out);
    scanned::lemma_over_is_on(sort::entry_lines_spec(es));
    scanned::lemma_over_is_on(sort::entry_lines_spec(out));
}

/// `format_sorted` is idempotent, on every text: what it has sorted and
/// formatted it sorts and formats to itself.
pub proof fn format_sorted_is_idempotent(s: Seq<char>)
    ensures
        ({
            let opts = Options { sort: true, explicit: false };
            let out = fmt::format_spec(s, fmt::scan_ctx_spec(fmt::lines_spec(s)), opts);
            fmt::format_spec(out, fmt::scan_ctx_spec(fmt::lines_spec(out)), opts) == out
        }),
{
    let opts = Options { sort: true, explicit: false };
    let ctx = fmt::scan_ctx_spec(fmt::lines_spec(s));
    let src = sort::sort_entries_spec(fmt::lines_spec(s));
    let ls = blank::normalize_spec(src);
    scanned::lemma_scanned_clean(fmt::lines_spec(s));
    steady::lemma_postings_settle(ls, ctx, opts);
    sorting_and_formatting_is_idempotent(s, ctx);
    sorting_keeps_the_styles(fmt::lines_spec(s));
    scanned::normalizing_keeps_the_styles(src);
    tokens::lemma_lines_hold_no_newline(s);
    lemma_sorted_without(fmt::lines_spec(s));
    laws::lemma_normal_without(src);
    laws::lemma_reflowed(src, ctx, opts);
    laws::lemma_format_lines(ls, ctx, opts);
    laws::lemma_classes(ls, ctx, opts);
    let ws = fmt::format_lines_spec(ls, ctx, opts);
    let ps = fmt::all_posts(fmt::styled_spec(ls, ctx, opts));
    let n = ls.len() as int;
    scanned::lemma_written_scan(
        fmt::account_width(ps),
        fmt::number_width(ps),
        ls,
        ws,
        ctx,
        opts,
        n,
    );
    assert(ls.take(n) =~= ls);
    assert(ws.take(n) =~= ws);
}

} // verus!
