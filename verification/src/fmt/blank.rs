//! Blank-line normalization.
//!
//! The file is split into top-level blocks — a transaction (header plus its
//! indented run), or anything else (a directive plus its indented
//! subdirectives, a price line, an `include`) — and the blank lines *between*
//! blocks are rewritten. Blanks inside a block are impossible by construction:
//! a block's indented run is consumed whole, so a blank line can never land
//! between a header and its postings, nor inside a directive's subdirective
//! block, where it would end that block.
//!
//! Three rules:
//!
//! 1. A run of blank lines collapses to exactly one — never to none, so an
//!    existing separation is never lost.
//! 2. Leading blank lines are dropped, and so are trailing ones.
//! 3. A blank line is *inserted* where a boundary has none and either side is
//!    a transaction. Consecutive directives, `P` lines and `include`s stay
//!    dense, which is how they are written.
//!
//! Comments attach downward: a comment block directly above another block is
//! part of it, so the blank goes above the comment, never between the comment
//! and the transaction it heads.
//!
//! A `comment` … `end comment` block counts as a single block and is taken
//! whole, so its contents — blank lines included — are never rewritten.

use vstd::prelude::*;
use crate::lex;
use crate::text;

verus! {

/// A top-level block: whether it is a transaction, its lines, and whether a
/// blank line preceded it (which is what a boundary between two
/// non-transactions preserves).
#[verifier::ext_equal]
pub struct Block {
    pub txn: bool,
    pub lines: Seq<Seq<char>>,
    pub blank_before: bool,
}

/// How many of the lines after a block's first line belong to it: a `comment`
/// block runs to its end, any other takes the indented lines.
pub open spec fn body_len_spec(line: Seq<char>, tail: Seq<Seq<char>>) -> int {
    if lex::opens_block_spec(line) {
        lex::block_len_spec(tail)
    } else {
        indented_len_spec(tail)
    }
}

/// How many lines at the start are indented and not blank.
pub open spec fn indented_len_spec(ls: Seq<Seq<char>>) -> int
    decreases ls.len(),
{
    if ls.len() == 0 || !lex::is_indented_spec(ls[0]) {
        0
    } else {
        1 + indented_len_spec(ls.skip(1))
    }
}

pub proof fn lemma_indented_len(ls: Seq<Seq<char>>)
    ensures
        0 <= indented_len_spec(ls) <= ls.len(),
        forall|i: int| 0 <= i < indented_len_spec(ls) ==> lex::is_indented_spec(#[trigger] ls[i]),
        indented_len_spec(ls) < ls.len() ==> !lex::is_indented_spec(ls[indented_len_spec(ls)]),
    decreases ls.len(),
{
    if ls.len() > 0 && lex::is_indented_spec(ls[0]) {
        lemma_indented_len(ls.skip(1));
        let n = indented_len_spec(ls.skip(1));
        assert forall|i: int| 0 <= i < n + 1 implies lex::is_indented_spec(#[trigger] ls[i]) by {
            if i > 0 {
                assert(ls.skip(1)[i - 1] == ls[i]);
            }
        }
        if n + 1 < ls.len() {
            assert(ls.skip(1)[n] == ls[n + 1]);
        }
    }
}

pub proof fn lemma_block_len(ls: Seq<Seq<char>>)
    ensures
        0 <= lex::block_len_spec(ls) <= ls.len(),
    decreases ls.len(),
{
    if ls.len() > 0 && !lex::closes_block_spec(ls[0]) {
        lemma_block_len(ls.skip(1));
    }
}

pub proof fn lemma_body_len(line: Seq<char>, tail: Seq<Seq<char>>)
    ensures
        0 <= body_len_spec(line, tail) <= tail.len(),
{
    lemma_indented_len(tail);
    lemma_block_len(tail);
}

/// The buffered comments as a block of their own, if there are any.
pub open spec fn comments_spec(pending: Seq<Seq<char>>, blank_before: bool) -> Seq<Block> {
    if pending.len() == 0 {
        Seq::empty()
    } else {
        seq![Block { txn: false, lines: pending, blank_before }]
    }
}

/// The blocks of the remaining lines. `pending` are comment lines not yet
/// known to head anything; `blank` is whether a blank line stands right before
/// the first of them, or before the remaining lines where there are none.
pub open spec fn parse_spec(rest: Seq<Seq<char>>, pending: Seq<Seq<char>>, blank: bool) -> Seq<Block>
    decreases rest.len(),
{
    if rest.len() == 0 {
        comments_spec(pending, blank)
    } else {
        let line = rest[0];
        let tail = rest.skip(1);
        if lex::is_blank_spec(line) {
            // Comments followed by a blank head nothing: they stand alone.
            comments_spec(pending, blank) + parse_spec(tail, Seq::empty(), true)
        } else if lex::is_comment_spec(line) {
            parse_spec(tail, pending.push(line), blank)
        } else {
            let n = body_len_spec(line, tail);
            proof {
                lemma_body_len(line, tail);
            }
            seq![
                Block {
                    txn: lex::opens_txn_spec(line),
                    lines: pending.push(line) + tail.take(n),
                    blank_before: blank,
                },
            ] + parse_spec(tail.skip(n), Seq::empty(), false)
        }
    }
}

/// The blank line before a block, if there is to be one: where one preceded
/// it, and where it or the block before is a transaction.
pub open spec fn gap_spec(before: Block, b: Block) -> Seq<Seq<char>> {
    if b.blank_before || before.txn || b.txn {
        seq![Seq::empty()]
    } else {
        Seq::empty()
    }
}

/// The lines of blocks, with the blank lines between them.
pub open spec fn join_blocks_spec(bs: Seq<Block>) -> Seq<Seq<char>>
    decreases bs.len(),
{
    if bs.len() == 0 {
        Seq::empty()
    } else if bs.len() == 1 {
        bs[0].lines
    } else {
        join_blocks_spec(bs.drop_last()) + gap_spec(bs[bs.len() - 2], bs.last()) + bs.last().lines
    }
}

/// Lines with the blank lines between their blocks rewritten.
pub open spec fn normalize_spec(ls: Seq<Seq<char>>) -> Seq<Seq<char>> {
    join_blocks_spec(parse_spec(ls, Seq::empty(), false))
}

/// A block as it is built.
struct Chunk<'a> {
    txn: bool,
    lines: Vec<&'a str>,
    blank_before: bool,
}

impl<'a> View for Chunk<'a> {
    type V = Block;

    closed spec fn view(&self) -> Block {
        Block { txn: self.txn, lines: text::strs(self.lines@), blank_before: self.blank_before }
    }
}

spec fn blocks(v: Seq<Chunk>) -> Seq<Block> {
    v.map_values(|c: Chunk| c@)
}

/// How many of the lines from `from` on are indented and not blank.
pub(crate) fn indented_len(ls: &[&str], from: usize) -> (r: usize)
    requires
        from <= ls@.len(),
    ensures
        r == indented_len_spec(text::strs(ls@).skip(from as int)),
        from + r <= ls@.len(),
{
    let ghost all = text::strs(ls@).skip(from as int);
    let len: usize = ls.len();
    let mut i: usize = 0;
    assert(all.skip(0) =~= all);
    while from + i < len
        invariant
            from + i <= len,
            len == ls@.len(),
            all == text::strs(ls@).skip(from as int),
            indented_len_spec(all) == i + indented_len_spec(all.skip(i as int)),
        decreases ls@.len() - from - i,
    {
        assert(all.skip(i as int)[0] == ls@[from + i]@);
        assert(all.skip(i as int).skip(1) =~= all.skip(i + 1));
        if !lex::is_indented_non_blank(ls[from + i]) {
            return i;
        }
        i = i + 1;
    }
    i
}

/// How many of the lines from `from` on belong to the block that `line` opens.
pub(crate) fn body_len(line: &str, ls: &[&str], from: usize) -> (r: usize)
    requires
        from <= ls@.len(),
    ensures
        r == body_len_spec(line@, text::strs(ls@).skip(from as int)),
        from + r <= ls@.len(),
{
    if lex::opens_comment_block(line) {
        let after = lex::part(ls, from, ls.len());
        assert(text::strs(after@) =~= text::strs(ls@).skip(from as int));
        lex::comment_block_len(after.as_slice())
    } else {
        indented_len(ls, from)
    }
}

/// Put the buffered comments on the list as a block of their own.
fn flush_comments<'a>(out: &mut Vec<Chunk<'a>>, pending: Vec<&'a str>, blank: bool)
    ensures
        blocks(final(out)@) == blocks(old(out)@) + comments_spec(text::strs(pending@), blank),
{
    let ghost before = blocks(out@);
    assert(text::strs(pending@).len() == pending@.len());
    if pending.len() > 0 {
        let ghost p = text::strs(pending@);
        out.push(Chunk { txn: false, lines: pending, blank_before: blank });
        assert(blocks(out@) =~= before + comments_spec(p, blank));
    } else {
        assert(blocks(out@) =~= before + comments_spec(text::strs(pending@), blank));
    }
}

/// Split into top-level blocks, attaching leading comment lines to the block
/// below them.
fn parse<'a>(ls: &[&'a str]) -> (r: Vec<Chunk<'a>>)
    ensures
        blocks(r@) == parse_spec(text::strs(ls@), Seq::empty(), false),
{
    let ghost all = text::strs(ls@);
    let mut out: Vec<Chunk<'a>> = Vec::new();
    // Comment lines buffered until we know what they head.
    let mut pending: Vec<&'a str> = Vec::new();
    // Whether a blank line precedes the first of them, or the next line.
    let mut blank = false;
    let mut i: usize = 0;
    assert(text::strs(pending@) =~= Seq::empty());
    assert(all.skip(0) =~= all);
    assert(blocks(out@) + parse_spec(all, text::strs(pending@), false) =~= parse_spec(
        all,
        Seq::empty(),
        false,
    ));
    while i < ls.len()
        invariant
            i <= ls@.len(),
            all == text::strs(ls@),
            blocks(out@) + parse_spec(all.skip(i as int), text::strs(pending@), blank)
                == parse_spec(all, Seq::empty(), false),
        decreases ls@.len() - i,
    {
        let line = ls[i];
        let ghost rest = all.skip(i as int);
        let ghost done = blocks(out@);
        let ghost held = text::strs(pending@);
        assert(rest[0] == line@);
        assert(rest.skip(1) =~= all.skip(i + 1));
        i = i + 1;
        if lex::is_blank(line) {
            flush_comments(&mut out, pending, blank);
            pending = Vec::new();
            assert(text::strs(pending@) =~= Seq::empty());
            assert(done + (comments_spec(held, blank) + parse_spec(
                all.skip(i as int),
                Seq::empty(),
                true,
            )) =~= blocks(out@) + parse_spec(all.skip(i as int), text::strs(pending@), true));
            blank = true;
        } else if lex::is_comment(line) {
            pending.push(line);
            assert(text::strs(pending@) =~= held.push(line@));
        } else {
            // A `comment` block is opaque: it is taken whole, so the blank
            // lines inside it are never seen, let alone rewritten.
            let n: usize = body_len(line, ls, i);
            let txn = lex::opens_txn(line);
            pending.push(line);
            let mut run = lex::part(ls, i, i + n);
            let ghost head = pending@;
            let ghost body = run@;
            pending.append(&mut run);
            assert(text::strs(pending@) =~= held.push(line@) + rest.skip(1).take(n as int));
            let chunk = Chunk { txn, lines: pending, blank_before: blank };
            let ghost cv = chunk@;
            out.push(chunk);
            pending = Vec::new();
            blank = false;
            i = i + n;
            assert(text::strs(pending@) =~= Seq::empty());
            assert(blocks(out@) =~= done.push(cv));
            assert(rest.skip(1).skip(n as int) =~= all.skip(i as int));
            assert(done + (seq![cv] + parse_spec(all.skip(i as int), Seq::empty(), false))
                =~= blocks(out@) + parse_spec(all.skip(i as int), text::strs(pending@), blank));
        }
    }
    assert(all.skip(i as int) =~= Seq::empty());
    flush_comments(&mut out, pending, blank);
    out
}

/// Rewrite the blank lines between top-level blocks.
#[must_use]
pub fn normalize<'a>(ls: &[&'a str]) -> (r: Vec<&'a str>)
    ensures
        text::strs(r@) == normalize_spec(text::strs(ls@)),
{
    let bs = parse(ls);
    let ghost all = blocks(bs@);
    let mut out: Vec<&'a str> = Vec::new();
    let mut i: usize = 0;
    assert(text::strs(out@) =~= Seq::empty());
    while i < bs.len()
        invariant
            i <= bs@.len(),
            all == blocks(bs@),
            text::strs(out@) == join_blocks_spec(all.take(i as int)),
        decreases bs@.len() - i,
    {
        let ghost done = text::strs(out@);
        assert(all[i as int] == bs@[i as int]@);
        assert(all.take(i + 1).drop_last() =~= all.take(i as int));
        assert(all.take(i + 1).last() == all[i as int]);
        if i > 0 {
            assert(all[i - 1] == bs@[i - 1]@);
            assert(all.take(i + 1)[i - 1] == all[i - 1]);
            if bs[i].blank_before || bs[i - 1].txn || bs[i].txn {
                out.push("");
                proof {
                    reveal_strlit("");
                    assert(""@ =~= Seq::<char>::empty());
                }
            }
            assert(text::strs(out@) =~= done + gap_spec(all[i - 1], all[i as int]));
        }
        let ghost gapped = out@;
        let mut copy = lex::part(bs[i].lines.as_slice(), 0, bs[i].lines.len());
        assert(copy@ =~= bs@[i as int].lines@);
        out.append(&mut copy);
        assert(text::strs(out@) =~= text::strs(gapped) + all[i as int].lines);
        if i == 0 {
            assert(all.take(1)[0] == all[0]);
            assert(text::strs(out@) =~= all[0].lines);
        }
        i = i + 1;
    }
    assert(all.take(all.len() as int) =~= all);
    out
}

} // verus!
