//! What formatting leaves as it is.

use vstd::prelude::*;
use crate::amount::Ctx;
use crate::fmt::{self, Options};
use crate::fmt::blank::{self, Block};
use crate::fmt::laws;
use crate::fmt::shape;
use crate::lex;

verus! {

/// The lines that are not blank.
pub open spec fn solid(ls: Seq<Seq<char>>) -> Seq<Seq<char>>
    decreases ls.len(),
{
    if ls.len() == 0 {
        Seq::empty()
    } else if lex::is_blank_spec(ls.last()) {
        solid(ls.drop_last())
    } else {
        solid(ls.drop_last()).push(ls.last())
    }
}

proof fn lemma_solid_concat(a: Seq<Seq<char>>, b: Seq<Seq<char>>)
    ensures
        solid(a + b) == solid(a) + solid(b),
    decreases b.len(),
{
    if b.len() == 0 {
        assert(a + b =~= a);
        assert(solid(a) + solid(b) =~= solid(a));
    } else {
        lemma_solid_concat(a, b.drop_last());
        assert((a + b).drop_last() =~= a + b.drop_last());
        assert((a + b).last() == b.last());
        assert(solid(a + b) =~= solid(a) + solid(b));
    }
}

proof fn lemma_solid_blank(l: Seq<char>)
    requires
        lex::is_blank_spec(l),
    ensures
        solid(seq![l]) == Seq::<Seq<char>>::empty(),
{
    let one = seq![l];
    assert(one.drop_last() =~= Seq::empty());
    assert(solid(one.drop_last()) =~= Seq::empty());
    assert(one.last() == l);
}

/// The lines of blocks that are not blank.
pub open spec fn solid_in(bs: Seq<Block>) -> Seq<Seq<char>>
    decreases bs.len(),
{
    if bs.len() == 0 {
        Seq::empty()
    } else {
        solid(bs[0].lines) + solid_in(bs.skip(1))
    }
}

proof fn lemma_solid_in_cons(b: Block, bs: Seq<Block>)
    ensures
        solid_in(seq![b] + bs) == solid(b.lines) + solid_in(bs),
{
    assert((seq![b] + bs).skip(1) =~= bs);
}

/// The blocks of lines hold those of the lines that are not blank.
proof fn lemma_parse_solid(rest: Seq<Seq<char>>, pending: Seq<Seq<char>>, b: bool)
    ensures
        solid_in(blank::parse_spec(rest, pending, b)) == solid(pending + rest),
    decreases rest.len(),
{
    let none = Seq::<Seq<char>>::empty();
    let bs = blank::parse_spec(rest, pending, b);
    let alone = Block { txn: false, lines: pending, blank_before: b };
    if rest.len() == 0 {
        assert(pending + rest =~= pending);
        if pending.len() > 0 {
            assert(bs =~= seq![alone] + Seq::empty());
            lemma_solid_in_cons(alone, Seq::empty());
            assert(solid(pending) + Seq::empty() =~= solid(pending));
        } else {
            assert(bs =~= Seq::empty());
        }
    } else {
        let line = rest[0];
        let tail = rest.skip(1);
        if lex::is_blank_spec(line) {
            let more = blank::parse_spec(tail, none, true);
            lemma_parse_solid(tail, none, true);
            assert(none + tail =~= tail);
            assert(pending + rest =~= pending + (seq![line] + tail));
            lemma_solid_concat(pending, seq![line] + tail);
            lemma_solid_concat(seq![line], tail);
            lemma_solid_blank(line);
            if pending.len() > 0 {
                assert(bs =~= seq![alone] + more);
                lemma_solid_in_cons(alone, more);
                assert(solid_in(bs) =~= solid(pending + rest));
            } else {
                assert(bs =~= more);
                assert(solid_in(bs) =~= solid(pending + rest));
            }
        } else if lex::is_comment_spec(line) {
            lemma_parse_solid(tail, pending.push(line), b);
            assert(pending.push(line) + tail =~= pending + rest);
        } else {
            blank::lemma_body_len(line, tail);
            let n = blank::body_len_spec(line, tail);
            let blk = Block {
                txn: lex::opens_txn_spec(line),
                lines: pending.push(line) + tail.take(n),
                blank_before: b,
            };
            let after = tail.skip(n);
            let more = blank::parse_spec(after, none, false);
            lemma_parse_solid(after, none, false);
            assert(none + after =~= after);
            assert(bs =~= seq![blk] + more);
            lemma_solid_in_cons(blk, more);
            assert(pending + rest =~= blk.lines + after);
            lemma_solid_concat(blk.lines, after);
        }
    }
}

/// Gaps between blocks add none.
proof fn lemma_follow_solid(prev: Block, bs: Seq<Block>)
    ensures
        solid(shape::follow(prev, bs)) == solid_in(bs),
    decreases bs.len(),
{
    if bs.len() > 0 {
        let b = bs[0];
        let gap = blank::gap_spec(prev, b);
        let after = shape::follow(b, bs.skip(1));
        lemma_follow_solid(b, bs.skip(1));
        assert(shape::follow(prev, bs) =~= gap + (b.lines + after));
        lemma_solid_concat(gap, b.lines + after);
        lemma_solid_concat(b.lines, after);
        assert(solid(gap) =~= Seq::empty()) by {
            if gap.len() > 0 {
                assert(lex::is_blank_spec(Seq::<char>::empty()));
                lemma_solid_blank(Seq::empty());
                assert(gap =~= seq![Seq::<char>::empty()]);
            }
        }
        assert(solid(shape::follow(prev, bs)) =~= solid_in(bs));
    }
}

/// Normalizing adds and removes blank lines alone: every other line stays, and
/// they stay in order.
pub proof fn normalizing_keeps_the_lines(ls: Seq<Seq<char>>)
    ensures
        solid(blank::normalize_spec(ls)) == solid(ls),
{
    let none = Seq::<Seq<char>>::empty();
    let bs = blank::parse_spec(ls, none, false);
    lemma_parse_solid(ls, none, false);
    assert(none + ls =~= ls);
    if bs.len() > 0 {
        shape::lemma_join_front(bs);
        lemma_solid_concat(bs[0].lines, shape::follow(bs[0], bs.skip(1)));
        lemma_follow_solid(bs[0], bs.skip(1));
    } else {
        assert(blank::normalize_spec(ls) =~= none);
    }
}

/// Without filling in, a line that is no posting passes through as it is, but
/// for white space at the end of a transaction header or in a blank line: a
/// directive, a comment, a price, and every line of a `comment` block.
pub proof fn other_lines_pass_through(ls: Seq<Seq<char>>, ctx: Ctx, opts: Options, i: int)
    requires
        !opts.explicit,
        0 <= i < ls.len(),
        !(fmt::styled_spec(ls, ctx, opts)[i] is Post),
    ensures
        ({
            let out = fmt::format_lines_spec(ls, ctx, opts);
            &&& out.len() == ls.len()
            &&& fmt::styled_spec(ls, ctx, opts)[i] is Opaque ==> out[i] == ls[i]
            &&& !lex::is_blank_spec(ls[i]) && !lex::opens_txn_spec(ls[i]) ==> out[i] == ls[i]
            &&& lex::opens_txn_spec(ls[i]) ==> out[i] == ls[i] || out[i] == lex::rstrip_spec(ls[i])
        }),
{
    laws::lemma_format_lines(ls, ctx, opts);
    laws::lemma_classes(ls, ctx, opts);
}

} // verus!
