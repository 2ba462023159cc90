//! How a formatted text is laid out.

use vstd::prelude::*;
use crate::fmt;
use crate::fmt::blank::{self, Block};
use crate::fmt::explicit::Line;
use crate::fmt::posting::{self, Post};
use crate::fmt::shape;
use crate::lex;
use crate::text;

verus! {

// ---- columns ----

/// Where the number of an amount ends, counted from the start of its line.
pub open spec fn number_end(acc_w: nat, num_w: nat) -> int {
    4int + acc_w + 2 + num_w
}

/// Postings stand in columns: four spaces, the account, and the number ending in
/// the same place on every line, whatever the account and the number. A commodity
/// of its own stands one space behind it, and there is nothing but spaces between
/// account and number.
pub proof fn numbers_end_in_one_column(acc_w: nat, num_w: nat, p: Post)
    ensures
        p matches Post::Amount { account, num, commodity, rest, comment } ==> account.len()
            <= acc_w && num.len() <= num_w && num.len() > 0 ==> {
            let line = posting::render_spec(acc_w, num_w, p);
            let end = number_end(acc_w, num_w);
            &&& line.len() >= end
            &&& line.take(4) == "    "@
            &&& line.subrange(4, 4int + account.len()) == account
            &&& line.subrange(end - num.len(), end) == num
            &&& forall|i: int| 4 + account.len() <= i < end - num.len() ==> #[trigger] line[i] == ' '
            &&& commodity.len() > 0 ==> line.len() >= end + 1 + commodity.len() && line[end] == ' '
                && line.subrange(end + 1, end + 1 + commodity.len()) == commodity
        },
{
    reveal_strlit("    ");
    reveal_strlit("  ");
    reveal_strlit(" ");
    if let Post::Amount { account, num, commodity, rest, comment } = p {
        if account.len() <= acc_w && num.len() <= num_w && num.len() > 0 {
            let line = posting::render_spec(acc_w, num_w, p);
            let end = number_end(acc_w, num_w);
            assert(line.take(4) =~= "    "@);
            assert(line.subrange(4, 4int + account.len()) =~= account);
            assert(line.subrange(end - num.len(), end) =~= num);
            if commodity.len() > 0 {
                assert(line.subrange(end + 1, end + 1 + commodity.len()) =~= commodity);
            }
        }
    }
}

/// A posting keeps its tail and its comment: the tail follows the amount and the
/// comment ends the line, two spaces behind what it is about.
pub proof fn a_comment_ends_the_line(acc_w: nat, num_w: nat, p: Post, c: Seq<char>)
    requires
        match p {
            Post::Bare(_, comment) => comment == Some(c),
            Post::Amount { comment, .. } => comment == Some(c),
            Post::Comment(_) => false,
        },
    ensures
        ({
            let line = posting::render_spec(acc_w, num_w, p);
            let k = line.len() - c.len();
            &&& k >= 2
            &&& line.skip(k) == c
            &&& line[k - 1] == ' ' && line[k - 2] == ' '
        }),
{
    reveal_strlit("  ");
    let line = posting::render_spec(acc_w, num_w, p);
    let k = line.len() - c.len();
    assert(line.skip(k) =~= c);
}

/// Whether a field is there and so long.
pub open spec fn long(field: Option<Seq<char>>, n: nat) -> bool {
    field matches Some(f) && f.len() == n
}

/// The columns are as wide as what is widest in them, and no wider.
pub proof fn columns_are_as_wide_as_needed(ps: Seq<Post>)
    ensures
        forall|i: int|
            0 <= i < ps.len() ==> ((#[trigger] ps[i]).account() matches Some(a) ==> a.len()
                <= fmt::account_width(ps)),
        forall|i: int|
            0 <= i < ps.len() ==> ((#[trigger] ps[i]).number() matches Some(n) ==> n.len()
                <= fmt::number_width(ps)),
        fmt::account_width(ps) > 0 ==> exists|i: int|
            0 <= i < ps.len() && long((#[trigger] ps[i]).account(), fmt::account_width(ps)),
        fmt::number_width(ps) > 0 ==> exists|i: int|
            0 <= i < ps.len() && long((#[trigger] ps[i]).number(), fmt::number_width(ps)),
    decreases ps.len(),
{
    if ps.len() > 0 {
        let f = ps.drop_last();
        let n = ps.len() - 1;
        columns_are_as_wide_as_needed(f);
        assert forall|i: int| 0 <= i < ps.len() implies ((#[trigger] ps[i]).account() matches Some(
            a,
        ) ==> a.len() <= fmt::account_width(ps)) && (ps[i].number() matches Some(m) ==> m.len()
            <= fmt::number_width(ps)) by {
            if i < n {
                assert(f[i] == ps[i]);
            }
        }
        if fmt::account_width(ps) > 0 {
            if fmt::account_width(ps) == fmt::account_width(f) {
                let i = choose|i: int|
                    0 <= i < f.len() && long((#[trigger] f[i]).account(), fmt::account_width(f));
                assert(ps[i] == f[i]);
            } else {
                assert(ps[n].account() is Some);
            }
        }
        if fmt::number_width(ps) > 0 {
            if fmt::number_width(ps) == fmt::number_width(f) {
                let i = choose|i: int|
                    0 <= i < f.len() && long((#[trigger] f[i]).number(), fmt::number_width(f));
                assert(ps[i] == f[i]);
            } else {
                assert(ps[n].number() is Some);
            }
        }
    }
}

// ---- blank lines ----

/// The lines of blocks behind another, one empty line before each that is set
/// apart.
pub open spec fn set_out(bs: Seq<Block>) -> Seq<Seq<char>>
    decreases bs.len(),
{
    if bs.len() == 0 {
        Seq::empty()
    } else {
        (if bs[0].blank_before {
            seq![Seq::<char>::empty()]
        } else {
            Seq::empty()
        }) + bs[0].lines + set_out(bs.skip(1))
    }
}

/// Whether a transaction is set apart from what stands before and behind it.
pub open spec fn set_apart(bs: Seq<Block>) -> bool {
    forall|i: int|
        #![trigger bs[i]]
        0 < i < bs.len() && (bs[i].txn || bs[i - 1].txn) ==> bs[i].blank_before
}

proof fn lemma_noted(prev: Block, bs: Seq<Block>)
    ensures
        ({
            let n = shape::noted(prev, bs);
            &&& n.len() == bs.len()
            &&& shape::follow(prev, bs) == set_out(n)
            &&& forall|i: int| 0 <= i < n.len() ==> (#[trigger] n[i]).txn == bs[i].txn
            &&& n.len() > 0 && (prev.txn || n[0].txn) ==> n[0].blank_before
            &&& set_apart(n)
        }),
    decreases bs.len(),
{
    let n = shape::noted(prev, bs);
    if bs.len() > 0 {
        let more = shape::noted(bs[0], bs.skip(1));
        lemma_noted(bs[0], bs.skip(1));
        assert(n.skip(1) =~= more);
        assert(shape::follow(prev, bs) =~= set_out(n));
        assert forall|i: int| 0 <= i < n.len() implies (#[trigger] n[i]).txn == bs[i].txn by {
            if i > 0 {
                assert(n[i] == more[i - 1]);
                assert(bs.skip(1)[i - 1] == bs[i]);
            }
        }
        assert forall|i: int|
            #![trigger n[i]]
            0 < i < n.len() && (n[i].txn || n[i - 1].txn) implies n[i].blank_before by {
            assert(n[i] == more[i - 1]);
            if i > 1 {
                assert(n[i - 1] == more[i - 2]);
            } else {
                assert(n[0].txn == bs[0].txn);
            }
        }
    } else {
        assert(n =~= Seq::empty());
    }
}

/// Blank lines are normalized: what is left begins with no blank line, has one
/// empty line and no more between two of its blocks or none, and always has one
/// on either side of a transaction.
pub proof fn transactions_are_set_apart(ls: Seq<Seq<char>>)
    ensures
        ({
            let out = blank::normalize_spec(ls);
            let bs = blank::parse_spec(out, Seq::empty(), false);
            &&& out == set_out(bs)
            &&& set_apart(bs)
            &&& bs.len() > 0 ==> !bs[0].blank_before
        }),
{
    let none = Seq::<Seq<char>>::empty();
    let bs = blank::parse_spec(ls, none, false);
    let out = blank::normalize_spec(ls);
    let again = blank::parse_spec(out, none, false);
    shape::lemma_parse_chain(ls, none, false);
    if bs.len() == 0 {
        assert(out =~= none);
        assert(again =~= Seq::empty());
        assert(set_out(again) =~= none);
    } else {
        shape::lemma_join_front(bs);
        shape::lemma_read_back(bs, false);
        let more = shape::noted(bs[0], bs.skip(1));
        lemma_noted(bs[0], bs.skip(1));
        assert(again.skip(1) =~= more);
        assert(set_out(again) =~= bs[0].lines + set_out(more));
        assert forall|i: int|
            #![trigger again[i]]
            0 < i < again.len() && (again[i].txn || again[i - 1].txn) implies again[i].blank_before by {
            assert(again[i] == more[i - 1]);
            if i > 1 {
                assert(again[i - 1] == more[i - 2]);
            }
        }
    }
}

/// A block that opens a transaction is one by its header, and everything indented
/// that follows belongs to it.
pub proof fn a_transaction_takes_its_postings(
    head: Seq<char>,
    body: Seq<Seq<char>>,
    rest: Seq<Seq<char>>,
    gap: bool,
)
    requires
        lex::opens_txn_spec(head),
        forall|i: int| 0 <= i < body.len() ==> lex::is_indented_spec(#[trigger] body[i]),
        rest.len() > 0 ==> !lex::is_indented_spec(rest[0]),
    ensures
        blank::parse_spec(seq![head] + body + rest, Seq::empty(), gap) == seq![
            Block { txn: true, lines: seq![head] + body, blank_before: gap },
        ] + blank::parse_spec(rest, Seq::empty(), false),
{
    let all = seq![head] + body + rest;
    let none = Seq::<Seq<char>>::empty();
    let tail = all.skip(1);
    assert(tail =~= body + rest);
    assert(all[0] == head);
    assert(!lex::opens_block_spec(head)) by {
        reveal_strlit("comment");
        crate::fmt::reread::lemma_rstrip(head);
        if lex::opens_block_spec(head) {
            assert(lex::rstrip_spec(head)[0] == head[0]);
        }
    }
    assert(!lex::is_blank_spec(head)) by {
        if lex::is_blank_spec(head) {
            assert(text::is_white(head[0]));
        }
    }
    let n = body.len() as int;
    lemma_indented(body, rest);
    assert(blank::body_len_spec(head, tail) == n);
    assert(tail.take(n) =~= body);
    assert(tail.skip(n) =~= rest);
    assert(none.push(head) + body =~= seq![head] + body);
}

proof fn lemma_indented(body: Seq<Seq<char>>, rest: Seq<Seq<char>>)
    requires
        forall|i: int| 0 <= i < body.len() ==> lex::is_indented_spec(#[trigger] body[i]),
        rest.len() > 0 ==> !lex::is_indented_spec(rest[0]),
    ensures
        blank::indented_len_spec(body + rest) == body.len(),
{
    let all = body + rest;
    blank::lemma_indented_len(all);
    let k = blank::indented_len_spec(all);
    if k < body.len() {
        assert(all[k] == body[k]);
    } else if k > body.len() {
        assert(all[body.len() as int] == rest[0]);
        assert(lex::is_indented_spec(all[body.len() as int]));
    }
}

// ---- the whole file ----

/// Every posting of a file counts for the width of its columns.
pub proof fn every_posting_counts_for_the_columns(styled: Seq<Line>, i: int, j: int)
    requires
        0 <= i < styled.len(),
        0 <= j < styled[i].postings().len(),
    ensures
        fmt::all_posts(styled).contains(styled[i].postings()[j]),
    decreases styled.len(),
{
    let all = fmt::all_posts(styled);
    let f = styled.drop_last();
    let before = fmt::all_posts(f);
    assert(all == before + styled.last().postings());
    if i < f.len() {
        assert(f[i] == styled[i]);
        every_posting_counts_for_the_columns(f, i, j);
        let k = choose|k: int| 0 <= k < before.len() && before[k] == styled[i].postings()[j];
        assert(all[k] == before[k]);
    } else {
        assert(all[before.len() + j] == styled[i].postings()[j]);
    }
}

proof fn lemma_upto(
    acc_w: nat,
    num_w: nat,
    ls: Seq<Seq<char>>,
    styled: Seq<Line>,
    n: int,
    i: int,
)
    requires
        0 <= i < n <= ls.len(),
        styled.len() == ls.len(),
        forall|k: int| 0 <= k < styled.len() ==> single(#[trigger] styled[k]),
    ensures
        fmt::format_upto_spec(acc_w, num_w, ls, styled, n).len() == n,
        fmt::format_upto_spec(acc_w, num_w, ls, styled, n)[i] == fmt::format_line_spec(
            acc_w,
            num_w,
            ls[i],
            styled[i],
        )[0],
    decreases n,
{
    assert(single(styled[n - 1]));
    let last = fmt::format_line_spec(acc_w, num_w, ls[n - 1], styled[n - 1]);
    assert(last.len() == 1);
    if n > 1 {
        if i < n - 1 {
            lemma_upto(acc_w, num_w, ls, styled, n - 1, i);
        } else {
            lemma_upto(acc_w, num_w, ls, styled, n - 1, 0);
        }
    } else {
        assert(fmt::format_upto_spec(acc_w, num_w, ls, styled, 0).len() == 0);
    }
}

/// Whether a line is written as one.
pub open spec fn single(c: Line) -> bool {
    c matches Line::Post(ps) ==> ps.len() == 1
}

/// Numbers line up across the whole file, not only within a transaction: on
/// every line with an amount the number ends in the same place, behind the widest
/// account and with room for the widest number.
pub proof fn numbers_line_up_across_the_file(
    ls: Seq<Seq<char>>,
    styled: Seq<Line>,
    i: int,
    p: Post,
)
    requires
        styled.len() == ls.len(),
        forall|k: int| 0 <= k < styled.len() ==> single(#[trigger] styled[k]),
        0 <= i < ls.len(),
        styled[i] == Line::Post(seq![p]),
        p matches Post::Amount { num, .. } && num.len() > 0,
    ensures
        ({
            let posts = fmt::all_posts(styled);
            let end = number_end(fmt::account_width(posts), fmt::number_width(posts));
            let out = fmt::reflowed_spec(ls, styled);
            &&& out.len() == ls.len()
            &&& p matches Post::Amount { account, num, .. }
            &&& out[i].len() >= end
            &&& out[i].subrange(end - num.len(), end) == num
            &&& out[i].subrange(4, 4int + account.len()) == account
            &&& account.len() <= fmt::account_width(posts) && num.len() <= fmt::number_width(posts)
        }),
{
    let posts = fmt::all_posts(styled);
    let acc_w = fmt::account_width(posts);
    let num_w = fmt::number_width(posts);
    lemma_upto(acc_w, num_w, ls, styled, ls.len() as int, i);
    assert(styled[i].postings()[0] == p);
    every_posting_counts_for_the_columns(styled, i, 0);
    let k = choose|k: int| 0 <= k < posts.len() && posts[k] == p;
    columns_are_as_wide_as_needed(posts);
    assert(posts[k].account() == p.account());
    assert(posts[k].number() == p.number());
    numbers_end_in_one_column(acc_w, num_w, p);
}

} // verus!
