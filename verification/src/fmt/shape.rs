//! Why normalizing blank lines is done once: what it writes has the blocks it
//! read, and so has everything with lines of the same kinds.

use vstd::prelude::*;
use crate::fmt::blank::{self, Block};
use crate::lex;
use crate::text;

verus! {

/// Whether two lines are of the same kind.
pub open spec fn alike(a: Seq<char>, b: Seq<char>) -> bool {
    &&& lex::is_blank_spec(a) == lex::is_blank_spec(b)
    &&& lex::is_comment_spec(a) == lex::is_comment_spec(b)
    &&& lex::opens_block_spec(a) == lex::opens_block_spec(b)
    &&& lex::closes_block_spec(a) == lex::closes_block_spec(b)
    &&& lex::opens_txn_spec(a) == lex::opens_txn_spec(b)
    &&& lex::is_indented_spec(a) == lex::is_indented_spec(b)
    &&& a.len() == 0 ==> b.len() == 0
}

pub open spec fn all_alike(a: Seq<Seq<char>>, b: Seq<Seq<char>>) -> bool {
    a.len() == b.len() && forall|i: int| 0 <= i < a.len() ==> alike(#[trigger] a[i], b[i])
}

// ---- blocks from the front ----

/// The lines of blocks that follow another.
pub open spec fn follow(prev: Block, bs: Seq<Block>) -> Seq<Seq<char>>
    decreases bs.len(),
{
    if bs.len() == 0 {
        Seq::empty()
    } else {
        blank::gap_spec(prev, bs[0]) + bs[0].lines + follow(bs[0], bs.skip(1))
    }
}

proof fn lemma_follow_back(prev: Block, bs: Seq<Block>)
    requires
        bs.len() > 0,
    ensures
        follow(prev, bs) == follow(prev, bs.drop_last()) + blank::gap_spec(
            if bs.len() == 1 {
                prev
            } else {
                bs[bs.len() - 2]
            },
            bs.last(),
        ) + bs.last().lines,
    decreases bs.len(),
{
    if bs.len() == 1 {
        assert(bs.skip(1) =~= Seq::empty());
        assert(bs.drop_last() =~= Seq::empty());
        assert(follow(bs[0], bs.skip(1)) =~= Seq::empty());
        assert(follow(prev, bs.drop_last()) =~= Seq::empty());
        assert(follow(prev, bs) =~= follow(prev, bs.drop_last()) + blank::gap_spec(prev, bs[0])
            + bs[0].lines);
    } else {
        let more = bs.skip(1);
        lemma_follow_back(bs[0], more);
        assert(more.drop_last() =~= bs.drop_last().skip(1));
        assert(bs.drop_last()[0] == bs[0]);
        assert(more.last() == bs.last());
        let p = if more.len() == 1 {
            bs[0]
        } else {
            more[more.len() - 2]
        };
        assert(p == bs[bs.len() - 2]);
        assert(follow(prev, bs) =~= follow(prev, bs.drop_last()) + blank::gap_spec(
            bs[bs.len() - 2],
            bs.last(),
        ) + bs.last().lines);
    }
}

/// The lines of blocks are those of the first and of those that follow it.
pub proof fn lemma_join_front(bs: Seq<Block>)
    requires
        bs.len() > 0,
    ensures
        blank::join_blocks_spec(bs) == bs[0].lines + follow(bs[0], bs.skip(1)),
    decreases bs.len(),
{
    if bs.len() == 1 {
        assert(bs.skip(1) =~= Seq::empty());
        assert(bs[0].lines + follow(bs[0], bs.skip(1)) =~= bs[0].lines);
    } else {
        let front = bs.drop_last();
        lemma_join_front(front);
        assert(front[0] == bs[0]);
        let more = bs.skip(1);
        lemma_follow_back(bs[0], more);
        assert(more.drop_last() =~= front.skip(1));
        assert(more.last() == bs.last());
        let p = if more.len() == 1 {
            bs[0]
        } else {
            more[more.len() - 2]
        };
        assert(p == bs[bs.len() - 2]);
        assert(blank::join_blocks_spec(bs) =~= bs[0].lines + follow(bs[0], more));
    }
}

// ---- blocks as they are read ----

/// How many comment lines stand at the start.
pub open spec fn lead(ls: Seq<Seq<char>>) -> int
    decreases ls.len(),
{
    if ls.len() == 0 || !lex::is_comment_spec(ls[0]) {
        0
    } else {
        1 + lead(ls.skip(1))
    }
}

pub proof fn lemma_lead(ls: Seq<Seq<char>>)
    ensures
        0 <= lead(ls) <= ls.len(),
        forall|i: int| 0 <= i < lead(ls) ==> lex::is_comment_spec(#[trigger] ls[i]),
        lead(ls) < ls.len() ==> !lex::is_comment_spec(ls[lead(ls)]),
    decreases ls.len(),
{
    if ls.len() > 0 && lex::is_comment_spec(ls[0]) {
        let t = ls.skip(1);
        lemma_lead(t);
        assert forall|i: int| 0 <= i < lead(ls) implies lex::is_comment_spec(#[trigger] ls[i]) by {
            if i > 0 {
                assert(t[i - 1] == ls[i]);
            }
        }
        if lead(ls) < ls.len() {
            assert(t[lead(t)] == ls[lead(ls)]);
        }
    }
}

pub proof fn lemma_lead_is(ls: Seq<Seq<char>>, k: int)
    requires
        0 <= k <= ls.len(),
        forall|i: int| 0 <= i < k ==> lex::is_comment_spec(#[trigger] ls[i]),
        k < ls.len() ==> !lex::is_comment_spec(ls[k]),
    ensures
        lead(ls) == k,
{
    lemma_lead(ls);
    let m = lead(ls);
    if m < k {
        assert(lex::is_comment_spec(ls[m]));
    }
    if k < m {
        assert(lex::is_comment_spec(ls[k]));
    }
}

/// Whether lines are the whole body of a block that a line opens.
pub open spec fn is_body(head: Seq<char>, body: Seq<Seq<char>>) -> bool {
    if lex::opens_block_spec(head) {
        lex::block_len_spec(body) == body.len()
    } else {
        forall|i: int| 0 <= i < body.len() ==> lex::is_indented_spec(#[trigger] body[i])
    }
}

/// Whether the last line closes a `comment` block.
pub open spec fn closed(body: Seq<Seq<char>>) -> bool {
    body.len() > 0 && lex::closes_block_spec(body.last())
}

/// Whether a block is one as they are read: comment lines, and then a line
/// with its body, or nothing.
pub open spec fn valid(b: Block) -> bool {
    let k = lead(b.lines);
    &&& b.lines.len() > 0
    &&& if k < b.lines.len() {
        &&& !lex::is_blank_spec(b.lines[k])
        &&& b.txn == lex::opens_txn_spec(b.lines[k])
        &&& is_body(b.lines[k], b.lines.skip(k + 1))
    } else {
        !b.txn
    }
}

/// Whether a block can stand right after another.
pub open spec fn linked(a: Block, b: Block) -> bool {
    let k = lead(a.lines);
    let apart = blank::gap_spec(a, b).len() > 0;
    if k < a.lines.len() {
        if lex::opens_block_spec(a.lines[k]) {
            closed(a.lines.skip(k + 1))
        } else {
            apart || !lex::is_indented_spec(b.lines[0])
        }
    } else {
        apart
    }
}

/// Whether blocks are as they are read from a text.
pub open spec fn chain(bs: Seq<Block>) -> bool {
    &&& forall|i: int| 0 <= i < bs.len() ==> valid(#[trigger] bs[i])
    &&& forall|i: int| #![trigger bs[i]] 0 < i < bs.len() ==> linked(bs[i - 1], bs[i])
}

/// The length of a `comment` block that nothing closes is all there is.
pub proof fn lemma_unclosed(ls: Seq<Seq<char>>)
    ensures
        0 <= lex::block_len_spec(ls) <= ls.len(),
        lex::block_len_spec(ls.take(lex::block_len_spec(ls))) == lex::block_len_spec(ls),
        lex::block_len_spec(ls) < ls.len() ==> closed(ls.take(lex::block_len_spec(ls))),
    decreases ls.len(),
{
    let n = lex::block_len_spec(ls);
    if ls.len() > 0 {
        if lex::closes_block_spec(ls[0]) {
            assert(ls.take(1)[0] == ls[0]);
            assert(ls.take(1).last() == ls[0]);
        } else {
            let t = ls.skip(1);
            lemma_unclosed(t);
            let m = lex::block_len_spec(t);
            assert(ls.take(n).skip(1) =~= t.take(m));
            assert(ls.take(n)[0] == ls[0]);
            if n < ls.len() {
                assert(t.take(m).last() == ls.take(n).last());
            }
        }
    } else {
        assert(ls.take(0) =~= ls);
    }
}

/// What the first block that is read is like.
pub proof fn lemma_first(rest: Seq<Seq<char>>, pending: Seq<Seq<char>>, b: bool)
    ensures
        ({
            let bs = blank::parse_spec(rest, pending, b);
            bs.len() > 0 ==> {
                &&& b ==> bs[0].blank_before
                &&& bs[0].lines.len() > 0
                &&& bs[0].blank_before || (if pending.len() > 0 {
                    bs[0].lines[0] == pending[0]
                } else {
                    rest.len() > 0 && bs[0].lines[0] == rest[0]
                })
            }
        }),
    decreases rest.len(),
{
    let bs = blank::parse_spec(rest, pending, b);
    if rest.len() > 0 {
        let line = rest[0];
        let tail = rest.skip(1);
        if lex::is_blank_spec(line) {
            lemma_first(tail, Seq::empty(), true);
            if pending.len() == 0 {
                assert(bs =~= blank::parse_spec(tail, Seq::empty(), true));
            }
        } else if lex::is_comment_spec(line) {
            lemma_first(tail, pending.push(line), b);
            assert(pending.push(line)[0] == if pending.len() > 0 {
                pending[0]
            } else {
                line
            });
        } else {
            blank::lemma_body_len(line, tail);
            let n = blank::body_len_spec(line, tail);
            let all = pending.push(line) + tail.take(n);
            assert(bs[0].lines == all);
            assert(all[0] == if pending.len() > 0 {
                pending[0]
            } else {
                line
            });
        }
    }
}

pub proof fn lemma_chain_cons(b: Block, bs: Seq<Block>)
    requires
        valid(b),
        chain(bs),
        bs.len() > 0 ==> linked(b, bs[0]),
    ensures
        chain(seq![b] + bs),
{
    let all = seq![b] + bs;
    assert forall|i: int| 0 <= i < all.len() implies valid(#[trigger] all[i]) by {
        if i > 0 {
            assert(all[i] == bs[i - 1]);
        }
    }
    assert forall|i: int| #![trigger all[i]] 0 < i < all.len() implies linked(
        all[i - 1],
        all[i],
    ) by {
        if i == 1 {
            assert(all[1] == bs[0]);
        } else {
            assert(all[i] == bs[i - 1]);
            assert(all[i - 1] == bs[i - 2]);
        }
    }
}

pub proof fn lemma_chain_skip(bs: Seq<Block>)
    requires
        chain(bs),
        bs.len() > 0,
    ensures
        chain(bs.skip(1)),
        valid(bs[0]),
        bs.len() > 1 ==> valid(bs[1]) && linked(bs[0], bs[1]) && bs.skip(1)[0] == bs[1],
{
    let more = bs.skip(1);
    assert forall|i: int| 0 <= i < more.len() implies valid(#[trigger] more[i]) by {
        assert(more[i] == bs[i + 1]);
    }
    assert forall|i: int| #![trigger more[i]] 0 < i < more.len() implies linked(
        more[i - 1],
        more[i],
    ) by {
        assert(more[i] == bs[i + 1]);
        assert(more[i - 1] == bs[i]);
    }
}

/// Reading gives blocks as they are read.
pub proof fn lemma_parse_chain(rest: Seq<Seq<char>>, pending: Seq<Seq<char>>, b: bool)
    requires
        forall|i: int| 0 <= i < pending.len() ==> lex::is_comment_spec(#[trigger] pending[i]),
    ensures
        chain(blank::parse_spec(rest, pending, b)),
    decreases rest.len(),
{
    let bs = blank::parse_spec(rest, pending, b);
    let alone = Block { txn: false, lines: pending, blank_before: b };
    if pending.len() > 0 {
        lemma_lead_is(pending, pending.len() as int);
    }
    if rest.len() == 0 {
        assert(Seq::<Block>::empty() =~= Seq::empty());
        lemma_chain_cons_opt(pending, alone, Seq::empty(), bs, b);
    } else {
        let line = rest[0];
        let tail = rest.skip(1);
        if lex::is_blank_spec(line) {
            let more = blank::parse_spec(tail, Seq::empty(), true);
            lemma_parse_chain(tail, Seq::empty(), true);
            lemma_first(tail, Seq::empty(), true);
            lemma_chain_cons_opt(pending, alone, more, bs, b);
        } else if lex::is_comment_spec(line) {
            let p = pending.push(line);
            assert forall|i: int| 0 <= i < p.len() implies lex::is_comment_spec(#[trigger] p[i]) by {
                if i < pending.len() {
                    assert(p[i] == pending[i]);
                }
            }
            lemma_parse_chain(tail, p, b);
        } else {
            blank::lemma_body_len(line, tail);
            let n = blank::body_len_spec(line, tail);
            let body = tail.take(n);
            let after = tail.skip(n);
            let blk = Block {
                txn: lex::opens_txn_spec(line),
                lines: pending.push(line) + body,
                blank_before: b,
            };
            let k = pending.len() as int;
            assert forall|i: int| 0 <= i < k implies lex::is_comment_spec(
                #[trigger] blk.lines[i],
            ) by {
                assert(blk.lines[i] == pending[i]);
            }
            assert(blk.lines[k] == line);
            lemma_lead_is(blk.lines, k);
            assert(blk.lines.skip(k + 1) =~= body);
            lemma_unclosed(tail);
            blank::lemma_indented_len(tail);
            assert(is_body(line, body)) by {
                if !lex::opens_block_spec(line) {
                    assert forall|i: int| 0 <= i < body.len() implies lex::is_indented_spec(
                        #[trigger] body[i],
                    ) by {
                        assert(body[i] == tail[i]);
                    }
                }
            }
            let more = blank::parse_spec(after, Seq::empty(), false);
            lemma_parse_chain(after, Seq::empty(), false);
            lemma_first(after, Seq::empty(), false);
            if more.len() > 0 {
                if lex::opens_block_spec(line) {
                    if n == tail.len() {
                        assert(after =~= Seq::empty());
                        assert(more =~= Seq::empty());
                    }
                } else if !more[0].blank_before {
                    assert(after[0] == tail[n]);
                }
            }
            lemma_chain_cons(blk, more);
            assert(bs =~= seq![blk] + more);
        }
    }
}

proof fn lemma_chain_cons_opt(
    pending: Seq<Seq<char>>,
    alone: Block,
    more: Seq<Block>,
    bs: Seq<Block>,
    b: bool,
)
    requires
        alone == (Block { txn: false, lines: pending, blank_before: b }),
        pending.len() > 0 ==> lead(pending) == pending.len(),
        chain(more),
        more.len() > 0 ==> more[0].blank_before,
        bs == blank::comments_spec(pending, b) + more,
    ensures
        chain(bs),
{
    if pending.len() == 0 {
        assert(bs =~= more);
    } else {
        lemma_chain_cons(alone, more);
        assert(bs =~= seq![alone] + more);
    }
}

// ---- reading blocks back ----

/// Blocks with a blank line noted where one stands.
pub open spec fn noted(prev: Block, bs: Seq<Block>) -> Seq<Block>
    decreases bs.len(),
{
    if bs.len() == 0 {
        Seq::empty()
    } else {
        seq![Block { blank_before: blank::gap_spec(prev, bs[0]).len() > 0, ..bs[0] }] + noted(
            bs[0],
            bs.skip(1),
        )
    }
}

proof fn lemma_parse_comments(
    cs: Seq<Seq<char>>,
    rest: Seq<Seq<char>>,
    pending: Seq<Seq<char>>,
    b: bool,
)
    requires
        forall|i: int| 0 <= i < cs.len() ==> lex::is_comment_spec(#[trigger] cs[i]),
    ensures
        blank::parse_spec(cs + rest, pending, b) == blank::parse_spec(rest, pending + cs, b),
    decreases cs.len(),
{
    if cs.len() == 0 {
        assert(cs + rest =~= rest);
        assert(pending + cs =~= pending);
    } else {
        let c = cs[0];
        let all = cs + rest;
        let more = cs.skip(1);
        assert(lex::is_comment_spec(c));
        assert(!lex::is_blank_spec(c)) by {
            if lex::is_blank_spec(c) {
                assert(text::is_white(c[0]));
            }
        }
        assert(all[0] == c);
        assert(all.skip(1) =~= more + rest);
        assert forall|i: int| 0 <= i < more.len() implies lex::is_comment_spec(
            #[trigger] more[i],
        ) by {
            assert(more[i] == cs[i + 1]);
        }
        lemma_parse_comments(more, rest, pending.push(c), b);
        assert(pending.push(c) + more =~= pending + cs);
    }
}

proof fn lemma_block_len_front(body: Seq<Seq<char>>, tail: Seq<Seq<char>>)
    requires
        lex::block_len_spec(body) == body.len(),
        tail.len() == 0 || closed(body),
    ensures
        lex::block_len_spec(body + tail) == body.len(),
    decreases body.len(),
{
    let all = body + tail;
    if body.len() == 0 {
        assert(all =~= tail);
    } else {
        assert(all[0] == body[0]);
        if lex::closes_block_spec(body[0]) {
        } else {
            let t = body.skip(1);
            assert(all.skip(1) =~= t + tail);
            if t.len() > 0 {
                assert(t.last() == body.last());
            } else {
                assert(body.last() == body[0]);
            }
            lemma_block_len_front(t, tail);
        }
    }
}

proof fn lemma_indented_front(body: Seq<Seq<char>>, tail: Seq<Seq<char>>)
    requires
        forall|i: int| 0 <= i < body.len() ==> lex::is_indented_spec(#[trigger] body[i]),
        tail.len() == 0 || !lex::is_indented_spec(tail[0]),
    ensures
        blank::indented_len_spec(body + tail) == body.len(),
    decreases body.len(),
{
    let all = body + tail;
    if body.len() == 0 {
        assert(all =~= tail);
    } else {
        assert(all[0] == body[0]);
        let t = body.skip(1);
        assert(all.skip(1) =~= t + tail);
        assert forall|i: int| 0 <= i < t.len() implies lex::is_indented_spec(#[trigger] t[i]) by {
            assert(t[i] == body[i + 1]);
        }
        lemma_indented_front(t, tail);
    }
}

/// Blocks that are written are read again as they were, with the blank lines
/// noted that stand between them.
pub proof fn lemma_read_back(bs: Seq<Block>, b: bool)
    requires
        bs.len() > 0,
        chain(bs),
    ensures
        blank::parse_spec(bs[0].lines + follow(bs[0], bs.skip(1)), Seq::empty(), b) == seq![
            Block { blank_before: b, ..bs[0] },
        ] + noted(bs[0], bs.skip(1)),
    decreases bs.len(),
{
    let first = bs[0];
    let more = bs.skip(1);
    let tail = follow(first, more);
    let ls = first.lines;
    let k = lead(ls);
    lemma_lead(ls);
    assert(valid(bs[0]));
    let cs = ls.take(k);
    let none = Seq::<Seq<char>>::empty();
    assert forall|i: int| 0 <= i < cs.len() implies lex::is_comment_spec(#[trigger] cs[i]) by {
        assert(cs[i] == ls[i]);
    }
    let gap = if more.len() > 0 {
        blank::gap_spec(first, more[0])
    } else {
        none
    };
    let rest = if more.len() > 0 {
        more[0].lines + follow(more[0], more.skip(1))
    } else {
        none
    };
    assert(tail =~= gap + rest);
    if more.len() > 0 {
        assert(more[0] == bs[1]);
        assert(linked(bs[0], bs[1]));
        assert(valid(bs[1]));
        assert(more.skip(1) =~= bs.skip(2));
        lemma_chain_skip(bs);
    }
    let apart = gap.len() > 0;
    let others = noted(first, more);
    // What comes after the first block.
    assert(blank::parse_spec(tail, none, false) == others) by {
        if more.len() == 0 {
            assert(tail =~= none);
            assert(others =~= Seq::empty());
        } else {
            lemma_read_back(more, apart);
            if apart {
                assert(tail[0] == Seq::<char>::empty());
                assert(tail.skip(1) =~= rest);
                assert(lex::is_blank_spec(tail[0]));
                assert(blank::parse_spec(tail, none, false) =~= blank::parse_spec(
                    rest,
                    none,
                    true,
                ));
            } else {
                assert(tail =~= rest);
            }
        }
    }
    let whole = ls + tail;
    assert(whole =~= cs + (ls.skip(k) + tail));
    lemma_parse_comments(cs, ls.skip(k) + tail, none, b);
    assert(none + cs =~= cs);
    if k < ls.len() {
        let head = ls[k];
        let body = ls.skip(k + 1);
        let r = ls.skip(k) + tail;
        assert(r[0] == head);
        assert(r.skip(1) =~= body + tail);
        assert(!lex::is_comment_spec(head));
        if lex::opens_block_spec(head) {
            lemma_block_len_front(body, tail);
        } else {
            if tail.len() > 0 {
                if apart {
                    assert(tail[0] == Seq::<char>::empty());
                } else {
                    assert(tail[0] == more[0].lines[0]);
                }
            }
            lemma_indented_front(body, tail);
        }
        assert((body + tail).take(body.len() as int) =~= body);
        assert((body + tail).skip(body.len() as int) =~= tail);
        assert(cs.push(head) + body =~= ls);
        assert(blank::parse_spec(r, cs, b) =~= seq![Block { blank_before: b, ..first }] + others);
    } else {
        assert(cs =~= ls);
        assert(ls.skip(k) + tail =~= tail);
        if tail.len() == 0 {
            assert(more.len() == 0) by {
                if more.len() > 0 {
                    assert(gap.len() > 0);
                }
            }
            assert(others =~= Seq::empty());
            assert(blank::parse_spec(tail, cs, b) =~= seq![Block { blank_before: b, ..first }]
                + others);
        } else {
            assert(apart);
            assert(tail[0] == Seq::<char>::empty());
            assert(lex::is_blank_spec(tail[0]));
            assert(tail.skip(1) =~= rest);
            assert(blank::parse_spec(tail, none, false) =~= blank::parse_spec(rest, none, true));
            assert(blank::parse_spec(tail, cs, b) =~= seq![Block { blank_before: b, ..first }]
                + others);
        }
    }
}

/// Noting the blank lines that stand between blocks changes none of them.
proof fn lemma_noted_follow(prev: Block, other: Block, bs: Seq<Block>)
    requires
        other.txn == prev.txn,
    ensures
        follow(other, noted(prev, bs)) == follow(prev, bs),
    decreases bs.len(),
{
    if bs.len() > 0 {
        let n = noted(prev, bs);
        let b = Block { blank_before: blank::gap_spec(prev, bs[0]).len() > 0, ..bs[0] };
        assert(n[0] == b);
        assert(n.skip(1) =~= noted(bs[0], bs.skip(1)));
        lemma_noted_follow(bs[0], b, bs.skip(1));
        assert(blank::gap_spec(other, b) =~= blank::gap_spec(prev, bs[0]));
    } else {
        assert(noted(prev, bs) =~= Seq::empty());
    }
}

/// Normalizing what blocks are written as changes nothing.
pub proof fn lemma_written_is_normal(bs: Seq<Block>)
    requires
        chain(bs),
    ensures
        blank::normalize_spec(blank::join_blocks_spec(bs)) == blank::join_blocks_spec(bs),
{
    let none = Seq::<Seq<char>>::empty();
    if bs.len() == 0 {
        assert(blank::join_blocks_spec(bs) =~= none);
        assert(blank::parse_spec(none, none, false) =~= Seq::empty());
    } else {
        lemma_join_front(bs);
        lemma_read_back(bs, false);
        let first = Block { blank_before: false, ..bs[0] };
        let again = seq![first] + noted(bs[0], bs.skip(1));
        lemma_join_front(again);
        assert(again.skip(1) =~= noted(bs[0], bs.skip(1)));
        assert(again[0] == first);
        lemma_noted_follow(bs[0], first, bs.skip(1));
    }
}

/// Normalizing blank lines is done once: what is normalized stays as it is.
pub proof fn normalizing_is_idempotent(ls: Seq<Seq<char>>)
    ensures
        blank::normalize_spec(blank::normalize_spec(ls)) == blank::normalize_spec(ls),
{
    let bs = blank::parse_spec(ls, Seq::empty(), false);
    lemma_parse_chain(ls, Seq::empty(), false);
    lemma_written_is_normal(bs);
}

// ---- lines of the same kinds ----

/// Other lines in the place of those of blocks.
pub open spec fn recut(prev: Block, bs: Seq<Block>, ls: Seq<Seq<char>>) -> Seq<Block>
    decreases bs.len(),
{
    if bs.len() == 0 {
        Seq::empty()
    } else {
        let g = blank::gap_spec(prev, bs[0]).len() as int;
        let n = bs[0].lines.len() as int;
        seq![Block { lines: ls.subrange(g, g + n), ..bs[0] }] + recut(
            bs[0],
            bs.skip(1),
            ls.skip(g + n),
        )
    }
}

pub proof fn lemma_alike_lead(a: Seq<Seq<char>>, b: Seq<Seq<char>>)
    requires
        all_alike(a, b),
    ensures
        lead(a) == lead(b),
        lex::block_len_spec(a) == lex::block_len_spec(b),
        closed(a) == closed(b),
    decreases a.len(),
{
    if a.len() > 0 {
        let x = a.skip(1);
        let y = b.skip(1);
        assert(alike(a[0], b[0]));
        assert(alike(a[a.len() - 1], b[b.len() - 1]));
        assert forall|i: int| 0 <= i < x.len() implies alike(#[trigger] x[i], y[i]) by {
            assert(x[i] == a[i + 1] && y[i] == b[i + 1]);
            assert(alike(a[i + 1], b[i + 1]));
        }
        lemma_alike_lead(x, y);
    }
}

/// A block with lines of the same kinds is as good a block.
pub proof fn lemma_alike_valid(a: Block, b: Block)
    requires
        valid(a),
        all_alike(a.lines, b.lines),
        a.txn == b.txn,
    ensures
        valid(b),
        lead(a.lines) == lead(b.lines),
{
    lemma_alike_lead(a.lines, b.lines);
    let k = lead(a.lines);
    lemma_lead(a.lines);
    if k < a.lines.len() {
        assert(alike(a.lines[k], b.lines[k]));
        let x = a.lines.skip(k + 1);
        let y = b.lines.skip(k + 1);
        assert forall|i: int| 0 <= i < x.len() implies alike(#[trigger] x[i], y[i]) by {
            assert(alike(a.lines[k + 1 + i], b.lines[k + 1 + i]));
        }
        lemma_alike_lead(x, y);
        if !lex::opens_block_spec(a.lines[k]) {
            assert forall|i: int| 0 <= i < y.len() implies lex::is_indented_spec(#[trigger] y[i]) by {
                assert(alike(x[i], y[i]));
            }
        }
    }
}

pub proof fn lemma_alike_linked(a: Block, b: Block, a2: Block, b2: Block)
    requires
        valid(a),
        valid(b),
        linked(a, b),
        all_alike(a.lines, a2.lines),
        all_alike(b.lines, b2.lines),
        a.txn == a2.txn,
        b.txn == b2.txn,
        b.blank_before == b2.blank_before,
    ensures
        linked(a2, b2),
{
    lemma_alike_lead(a.lines, a2.lines);
    let k = lead(a.lines);
    lemma_lead(a.lines);
    assert(alike(b.lines[0], b2.lines[0]));
    if k < a.lines.len() {
        assert(alike(a.lines[k], a2.lines[k]));
        let x = a.lines.skip(k + 1);
        let y = a2.lines.skip(k + 1);
        assert forall|i: int| 0 <= i < x.len() implies alike(#[trigger] x[i], y[i]) by {
            assert(alike(a.lines[k + 1 + i], a2.lines[k + 1 + i]));
        }
        lemma_alike_lead(x, y);
    }
}

/// Lines of the same kinds as those of blocks make blocks of the same kinds.
pub proof fn lemma_recut(prev: Block, bs: Seq<Block>, ls: Seq<Seq<char>>)
    requires
        chain(bs),
        all_alike(follow(prev, bs), ls),
    ensures
        ({
            let cs = recut(prev, bs, ls);
            &&& cs.len() == bs.len()
            &&& chain(cs)
            &&& forall|other: Block|
                other.txn == prev.txn ==> #[trigger] follow(other, cs) == ls
            &&& cs.len() > 0 ==> all_alike(bs[0].lines, cs[0].lines) && cs[0].txn == bs[0].txn
                && cs[0].blank_before == bs[0].blank_before
        }),
    decreases bs.len(),
{
    let cs = recut(prev, bs, ls);
    if bs.len() == 0 {
        assert(ls =~= Seq::empty());
    } else {
        let b = bs[0];
        let gap = blank::gap_spec(prev, b);
        let g = gap.len() as int;
        let n = b.lines.len() as int;
        let all = follow(prev, bs);
        let more = bs.skip(1);
        let after = follow(b, more);
        assert(all == gap + b.lines + after);
        let mine = ls.subrange(g, g + n);
        let rest = ls.skip(g + n);
        let c = Block { lines: mine, ..b };
        assert forall|i: int| 0 <= i < n implies alike(#[trigger] b.lines[i], mine[i]) by {
            assert(all[g + i] == b.lines[i]);
            assert(alike(all[g + i], ls[g + i]));
        }
        assert forall|i: int| 0 <= i < after.len() implies alike(#[trigger] after[i], rest[i]) by {
            assert(all[g + n + i] == after[i]);
            assert(alike(all[g + n + i], ls[g + n + i]));
        }
        lemma_chain_skip(bs);
        lemma_recut(b, more, rest);
        let ds = recut(b, more, rest);
        assert(cs =~= seq![c] + ds);
        assert(valid(bs[0]));
        lemma_alike_valid(b, c);
        if ds.len() > 0 {
            assert(more[0] == bs[1]);
            assert(linked(bs[0], bs[1]));
            assert(valid(bs[1]));
            lemma_alike_linked(b, more[0], c, ds[0]);
        }
        lemma_chain_cons(c, ds);
        assert forall|other: Block| other.txn == prev.txn implies #[trigger] follow(other, cs)
            == ls by {
            assert(cs[0] == c);
            assert(cs.skip(1) =~= ds);
            assert(follow(c, ds) == rest);
            assert(blank::gap_spec(other, c) =~= gap);
            if g > 0 {
                assert(all[0] == Seq::<char>::empty());
                assert(alike(all[0], ls[0]));
                assert(ls[0] =~= Seq::<char>::empty());
            }
            assert(gap + mine + rest =~= ls);
        }
    }
}

/// Lines of the same kinds as those of blocks are the lines of blocks.
proof fn lemma_recut_all(bs: Seq<Block>, ls: Seq<Seq<char>>)
    requires
        bs.len() > 0,
        chain(bs),
        all_alike(bs[0].lines + follow(bs[0], bs.skip(1)), ls),
    ensures
        exists|cs: Seq<Block>| #[trigger] chain(cs) && blank::join_blocks_spec(cs) == ls,
{
    let b = bs[0];
    let n = b.lines.len() as int;
    let more = bs.skip(1);
    let after = follow(b, more);
    let all = b.lines + after;
    let mine = ls.take(n);
    let rest = ls.skip(n);
    let c = Block { lines: mine, ..b };
    assert forall|i: int| 0 <= i < n implies alike(#[trigger] b.lines[i], mine[i]) by {
        assert(all[i] == b.lines[i]);
        assert(alike(all[i], ls[i]));
    }
    assert forall|i: int| 0 <= i < after.len() implies alike(#[trigger] after[i], rest[i]) by {
        assert(all[n + i] == after[i]);
        assert(alike(all[n + i], ls[n + i]));
    }
    lemma_chain_skip(bs);
    lemma_recut(b, more, rest);
    let ds = recut(b, more, rest);
    lemma_alike_valid(b, c);
    if ds.len() > 0 {
        lemma_alike_linked(b, more[0], c, ds[0]);
    }
    lemma_chain_cons(c, ds);
    let cs = seq![c] + ds;
    lemma_join_front(cs);
    assert(cs[0] == c);
    assert(cs.skip(1) =~= ds);
    assert(follow(c, ds) == rest);
    assert(mine + rest =~= ls);
    assert(chain(cs) && blank::join_blocks_spec(cs) == ls);
}

/// Lines of the same kinds as normalized ones, with the empty lines empty, are
/// normalized too.
pub proof fn lemma_alike_is_normal(src: Seq<Seq<char>>, ls: Seq<Seq<char>>)
    requires
        all_alike(blank::normalize_spec(src), ls),
    ensures
        blank::normalize_spec(ls) == ls,
{
    let bs = blank::parse_spec(src, Seq::empty(), false);
    lemma_parse_chain(src, Seq::empty(), false);
    if bs.len() == 0 {
        assert(ls =~= Seq::empty());
        lemma_written_is_normal(Seq::empty());
        assert(blank::join_blocks_spec(Seq::empty()) =~= Seq::<Seq<char>>::empty());
    } else {
        lemma_join_front(bs);
        lemma_recut_all(bs, ls);
        let cs = choose|cs: Seq<Block>|
            #[trigger] chain(cs) && blank::join_blocks_spec(cs) == ls;
        lemma_written_is_normal(cs);
    }
}

} // verus!
