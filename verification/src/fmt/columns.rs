//! Why a file is laid out in the columns that its lines ask for.

use vstd::prelude::*;
use crate::amount::Ctx;
use crate::fmt::{self, Classify, Options};
use crate::fmt::blank::{self, Block};
use crate::fmt::explicit::Line;
use crate::fmt::laws;
use crate::fmt::posting::{self, Post};
use crate::fmt::reread;
use crate::fmt::scanned;
use crate::fmt::shape;
use crate::fmt::tree;
use crate::lex;
use crate::text;

verus! {

/// Lines in their order, their amounts as they are written.
pub open spec fn plainly() -> Options {
    Options { sort: false, explicit: false }
}

// ---- the postings that lines hold ----

/// What reading lines has come to: their postings, and what the next line is
/// read with.
pub struct Roll {
    pub posts: Seq<Post>,
    pub mark: Option<char>,
    pub in_txn: bool,
    pub opaque: bool,
    pub passed: int,
}

impl Roll {
    pub open spec fn start(stages: Seq<Ctx>) -> Roll {
        Roll {
            posts: Seq::empty(),
            mark: stages[0].decimal_mark,
            in_txn: false,
            opaque: false,
            passed: 0,
        }
    }

    /// Outside any transaction.
    pub open spec fn ended(self) -> Roll {
        Roll { in_txn: false, ..self }
    }

    /// One line further.
    #[verifier::opaque]
    pub open spec fn step(self, l: Seq<char>, stages: Seq<Ctx>) -> Roll {
        if self.opaque {
            Roll { opaque: !lex::closes_block_spec(l), ..self }
        } else if lex::opens_block_spec(l) {
            Roll { opaque: true, in_txn: false, ..self }
        } else if self.in_txn && lex::is_indented_spec(l) {
            let post = posting::restyle_post_spec(
                posting::parse_posting_spec(l),
                fmt::marked(fmt::stage(stages, self.passed), self.mark),
                plainly().places_spec(),
            );
            Roll { posts: self.posts.push(post), ..self }
        } else {
            Roll {
                mark: match lex::directive_arg_spec(l, "decimal-mark"@) {
                    Some(arg) => fmt::mark_named(arg),
                    None => self.mark,
                },
                in_txn: lex::opens_txn_spec(l),
                passed: if !lex::is_indented_spec(l) && lex::directive_arg_spec(
                    l,
                    "include"@,
                ) is Some {
                    self.passed + 1
                } else {
                    self.passed
                },
                ..self
            }
        }
    }
}

/// Reading on from a point.
pub open spec fn roll_on(st: Roll, ls: Seq<Seq<char>>, stages: Seq<Ctx>) -> Roll
    decreases ls.len(),
{
    if ls.len() == 0 {
        st
    } else {
        roll_on(st, ls.drop_last(), stages).step(ls.last(), stages)
    }
}

proof fn lemma_on_concat(st: Roll, a: Seq<Seq<char>>, b: Seq<Seq<char>>, stages: Seq<Ctx>)
    ensures
        roll_on(st, a + b, stages) == roll_on(roll_on(st, a, stages), b, stages),
    decreases b.len(),
{
    if b.len() == 0 {
        assert(a + b =~= a);
    } else {
        lemma_on_concat(st, a, b.drop_last(), stages);
        assert((a + b).drop_last() =~= a + b.drop_last());
        assert((a + b).last() == b.last());
    }
}

proof fn lemma_on_front(st: Roll, ls: Seq<Seq<char>>, stages: Seq<Ctx>)
    requires
        ls.len() > 0,
    ensures
        roll_on(st, ls, stages) == roll_on(st.step(ls[0], stages), ls.skip(1), stages),
{
    let one = seq![ls[0]];
    lemma_on_concat(st, one, ls.skip(1), stages);
    assert(one + ls.skip(1) =~= ls);
    assert(one.drop_last() =~= Seq::empty());
    assert(roll_on(st, one.drop_last(), stages) == st);
    assert(roll_on(st, one, stages) == st.step(one.last(), stages));
}

/// The postings of a text are those that reading it comes to.
proof fn lemma_rolled(ls: Seq<Seq<char>>, stages: Seq<Ctx>)
    ensures
        ({
            let c = Classify::over_stages(ls, stages, plainly());
            let r = roll_on(Roll::start(stages), ls, stages);
            &&& fmt::all_posts(c.out) == r.posts
            &&& c.mark == r.mark
            &&& c.in_txn == r.in_txn
            &&& c.opaque == r.opaque
            &&& fmt::passed(ls) == (r.passed, r.opaque)
        }),
    decreases ls.len(),
{
    reveal(Roll::step);
    let c = Classify::over_stages(ls, stages, plainly());
    if ls.len() > 0 {
        let f = ls.drop_last();
        let b = Classify::over_stages(f, stages, plainly());
        lemma_rolled(f, stages);
        assert(c.out.drop_last() =~= b.out);
        if let Line::Post(ps) = c.out.last() {
            assert(ps.len() == 1);
            let r = roll_on(Roll::start(stages), f, stages);
            assert(r.posts + ps =~= r.posts.push(ps[0]));
        } else {
            let r = roll_on(Roll::start(stages), f, stages);
            assert(r.posts + Seq::<Post>::empty() =~= r.posts);
        }
    }
}

// ---- lines ----

/// A blank line only ends a transaction.
proof fn lemma_blank_step(st: Roll, l: Seq<char>, stages: Seq<Ctx>)
    requires
        !st.opaque,
        lex::is_blank_spec(l),
    ensures
        st.step(l, stages) == st.ended(),
{
    reveal(Roll::step);
    reveal_strlit("comment");
    reveal_strlit("decimal-mark");
    reveal_strlit("include");
    reread::lemma_rstrip(l);
    if l.len() > 0 {
        assert(text::is_white(l[0]));
    }
    laws::lemma_no_directive(l, "decimal-mark"@);
    laws::lemma_no_directive(l, "include"@);
}

/// A line that is not indented is read the same whether a transaction is open
/// or not.
proof fn lemma_ended_on(st: Roll, ls: Seq<Seq<char>>, stages: Seq<Ctx>)
    requires
        !st.opaque,
        st.in_txn ==> ls.len() > 0 && !lex::is_indented_spec(ls[0]),
    ensures
        roll_on(st, ls, stages) == roll_on(st.ended(), ls, stages),
{
    reveal(Roll::step);
    if st.in_txn {
        lemma_on_front(st, ls, stages);
        lemma_on_front(st.ended(), ls, stages);
        assert(st.step(ls[0], stages) == st.ended().step(ls[0], stages));
    }
}

/// A comment line is in no transaction and opens nothing.
proof fn lemma_comments_on(st: Roll, cs: Seq<Seq<char>>, stages: Seq<Ctx>)
    requires
        !st.opaque,
        forall|i: int| 0 <= i < cs.len() ==> lex::is_comment_spec(#[trigger] cs[i]),
    ensures
        !roll_on(st, cs, stages).opaque,
        roll_on(st, cs, stages).in_txn ==> cs.len() == 0 && st.in_txn,
        roll_on(st, cs, stages).posts == st.posts,
    decreases cs.len(),
{
    reveal(Roll::step);
    if cs.len() > 0 {
        let f = cs.drop_last();
        assert forall|i: int| 0 <= i < f.len() implies lex::is_comment_spec(#[trigger] f[i]) by {
            assert(f[i] == cs[i]);
        }
        lemma_comments_on(st, f, stages);
        let l = cs[cs.len() - 1];
        assert(lex::is_comment_spec(l));
        reveal_strlit("comment");
        reread::lemma_rstrip(l);
        assert(!text::is_white(l[0]));
        assert(!lex::is_indented_spec(l));
        if lex::opens_block_spec(l) {
            assert(lex::rstrip_spec(l)[0] == l[0]);
        }
    }
}

/// Indented lines open nothing and end nothing.
proof fn lemma_indented_on(st: Roll, ls: Seq<Seq<char>>, stages: Seq<Ctx>)
    requires
        !st.opaque,
        forall|i: int| 0 <= i < ls.len() ==> lex::is_indented_spec(#[trigger] ls[i]),
    ensures
        !roll_on(st, ls, stages).opaque,
        roll_on(st, ls, stages).in_txn == st.in_txn,
    decreases ls.len(),
{
    reveal(Roll::step);
    if ls.len() > 0 {
        let f = ls.drop_last();
        assert forall|i: int| 0 <= i < f.len() implies lex::is_indented_spec(#[trigger] f[i]) by {
            assert(f[i] == ls[i]);
        }
        lemma_indented_on(st, f, stages);
        let l = ls[ls.len() - 1];
        assert(lex::is_indented_spec(l));
        laws::lemma_indented_kind(l);
    }
}

/// Inside a `comment` block nothing is read, and its last line ends it.
proof fn lemma_opaque_on(st: Roll, ls: Seq<Seq<char>>, stages: Seq<Ctx>)
    requires
        st.opaque,
        lex::block_len_spec(ls) == ls.len(),
    ensures
        roll_on(st, ls, stages) == (Roll { opaque: !shape::closed(ls), ..st }),
    decreases ls.len(),
{
    reveal(Roll::step);
    if ls.len() > 0 {
        lemma_on_front(st, ls, stages);
        if lex::closes_block_spec(ls[0]) {
            assert(ls.skip(1) =~= Seq::empty());
            assert(ls.last() == ls[0]);
        } else {
            let t = ls.skip(1);
            lemma_opaque_on(st, t, stages);
            if t.len() > 0 {
                assert(t.last() == ls.last());
            } else {
                assert(ls.last() == ls[0]);
            }
            assert(st.step(ls[0], stages) == st);
        }
    }
}

// ---- blocks ----

/// Where reading on over a block leads.
proof fn lemma_block_on(st: Roll, b: Block, stages: Seq<Ctx>)
    requires
        shape::valid(b),
        !st.opaque,
        !st.in_txn,
    ensures
        ({
            let k = shape::lead(b.lines);
            let end = roll_on(st, b.lines, stages);
            &&& end.opaque ==> k < b.lines.len() && lex::opens_block_spec(b.lines[k])
                && !shape::closed(b.lines.skip(k + 1))
            &&& end.in_txn ==> b.txn && k < b.lines.len() && !lex::opens_block_spec(b.lines[k])
        }),
{
    reveal(Roll::step);
    let ls = b.lines;
    let k = shape::lead(ls);
    shape::lemma_lead(ls);
    let cs = ls.take(k);
    assert forall|i: int| 0 <= i < cs.len() implies lex::is_comment_spec(#[trigger] cs[i]) by {
        assert(cs[i] == ls[i]);
    }
    lemma_comments_on(st, cs, stages);
    let mid = roll_on(st, cs, stages);
    if k < ls.len() {
        let head = ls[k];
        let body = ls.skip(k + 1);
        let after = mid.step(head, stages);
        assert(ls =~= cs + (seq![head] + body));
        lemma_on_concat(st, cs, seq![head] + body, stages);
        lemma_on_front(mid, seq![head] + body, stages);
        assert((seq![head] + body).skip(1) =~= body);
        assert((seq![head] + body)[0] == head);
        if lex::opens_block_spec(head) {
            lemma_opaque_on(after, body, stages);
        } else {
            lemma_indented_on(after, body, stages);
        }
    } else {
        assert(cs =~= ls);
    }
}

/// Reading on over blocks, each of them outside any transaction to begin with.
pub open spec fn blocks_on(st: Roll, bs: Seq<Block>, stages: Seq<Ctx>) -> Roll
    decreases bs.len(),
{
    if bs.len() == 0 {
        st
    } else {
        blocks_on(roll_on(st.ended(), bs[0].lines, stages), bs.skip(1), stages)
    }
}

proof fn lemma_blocks_cons(st: Roll, b: Block, bs: Seq<Block>, stages: Seq<Ctx>)
    ensures
        blocks_on(st, seq![b] + bs, stages) == blocks_on(
            roll_on(st.ended(), b.lines, stages),
            bs,
            stages,
        ),
{
    let all = seq![b] + bs;
    assert(all.skip(1) =~= bs);
    assert(all[0] == b);
}

/// Reading a text comes to the postings that reading its blocks does.
#[verifier::rlimit(40)]
proof fn lemma_text_and_blocks(
    st: Roll,
    rest: Seq<Seq<char>>,
    pending: Seq<Seq<char>>,
    b: bool,
    stages: Seq<Ctx>,
)
    requires
        !st.opaque,
        st.in_txn && (pending + rest).len() > 0 ==> !lex::is_indented_spec((pending + rest)[0]),
        forall|i: int| 0 <= i < pending.len() ==> lex::is_comment_spec(#[trigger] pending[i]),
    ensures
        roll_on(st, pending + rest, stages).posts == blocks_on(
            st,
            blank::parse_spec(rest, pending, b),
            stages,
        ).posts,
    decreases rest.len(),
{
    let none = Seq::<Seq<char>>::empty();
    let bs = blank::parse_spec(rest, pending, b);
    let alone = Block { txn: false, lines: pending, blank_before: b };
    if rest.len() == 0 {
        assert(pending + rest =~= pending);
        if pending.len() > 0 {
            assert(bs =~= seq![alone] + Seq::empty());
            lemma_blocks_cons(st, alone, Seq::empty(), stages);
            lemma_ended_on(st, pending, stages);
        } else {
            assert(bs =~= Seq::empty());
        }
    } else {
        let line = rest[0];
        let tail = rest.skip(1);
        if lex::is_blank_spec(line) {
            let more = blank::parse_spec(tail, none, true);
            lemma_comments_on(st, pending, stages);
            let s1 = roll_on(st, pending, stages);
            lemma_blank_step(s1, line, stages);
            let s2 = s1.step(line, stages);
            assert(pending + rest =~= pending + (seq![line] + tail));
            lemma_on_concat(st, pending, seq![line] + tail, stages);
            lemma_on_front(s1, seq![line] + tail, stages);
            assert((seq![line] + tail).skip(1) =~= tail);
            lemma_text_and_blocks(s2, tail, none, true, stages);
            assert(none + tail =~= tail);
            assert(s2.ended() == s2);
            assert(blocks_on(s1, more, stages).posts == blocks_on(s2, more, stages).posts);
            if pending.len() > 0 {
                assert(bs =~= seq![alone] + more);
                assert((pending + rest)[0] == pending[0]);
                lemma_blocks_cons(st, alone, more, stages);
                lemma_ended_on(st, pending, stages);
            } else {
                assert(bs =~= more);
                assert(s1 == st);
            }
        } else if lex::is_comment_spec(line) {
            let p = pending.push(line);
            assert forall|i: int| 0 <= i < p.len() implies lex::is_comment_spec(#[trigger] p[i]) by {
                if i < pending.len() {
                    assert(p[i] == pending[i]);
                }
            }
            assert(p + tail =~= pending + rest);
            lemma_text_and_blocks(st, tail, p, b, stages);
        } else {
            blank::lemma_body_len(line, tail);
            let n = blank::body_len_spec(line, tail);
            let body = tail.take(n);
            let after = tail.skip(n);
            let blk = Block {
                txn: lex::opens_txn_spec(line),
                lines: pending.push(line) + body,
                blank_before: b,
            };
            let more = blank::parse_spec(after, none, false);
            assert(bs =~= seq![blk] + more);
            lemma_blocks_cons(st, blk, more, stages);
            assert(pending + rest =~= blk.lines + after);
            assert((pending + rest)[0] == blk.lines[0]);
            lemma_ended_on(st, blk.lines, stages);
            let end = roll_on(st, blk.lines, stages);
            lemma_on_concat(st, blk.lines, after, stages);
            shape::lemma_parse_chain(rest, pending, b);
            assert(shape::valid(bs[0]));
            assert(bs[0] == blk);
            lemma_block_on(st.ended(), blk, stages);
            let k = shape::lead(blk.lines);
            assert forall|i: int| 0 <= i < pending.len() implies lex::is_comment_spec(
                #[trigger] blk.lines[i],
            ) by {
                assert(blk.lines[i] == pending[i]);
            }
            assert(blk.lines[pending.len() as int] == line);
            shape::lemma_lead_is(blk.lines, pending.len() as int);
            assert(blk.lines.skip(k + 1) =~= body);
            if end.opaque {
                shape::lemma_unclosed(tail);
                assert(after =~= none);
                assert(more =~= Seq::empty());
            } else {
                assert(none + after =~= after);
                if end.in_txn && after.len() > 0 {
                    blank::lemma_indented_len(tail);
                    assert(after[0] == tail[n]);
                }
                lemma_text_and_blocks(end, after, none, false, stages);
            }
        }
    }
}

/// Reading the lines of blocks comes to the postings that reading the blocks
/// does.
proof fn lemma_follow_and_blocks(st: Roll, prev: Block, bs: Seq<Block>, stages: Seq<Ctx>)
    requires
        shape::chain(bs),
        bs.len() > 0 ==> !st.opaque,
        st.in_txn ==> prev.txn,
    ensures
        roll_on(st, shape::follow(prev, bs), stages).posts == blocks_on(st, bs, stages).posts,
    decreases bs.len(),
{
    if bs.len() > 0 {
        let b = bs[0];
        let more = bs.skip(1);
        shape::lemma_chain_skip(bs);
        let gap = blank::gap_spec(prev, b);
        let after = shape::follow(b, more);
        let empty = Seq::<char>::empty();
        assert(lex::is_blank_spec(empty));
        lemma_blank_step(st, empty, stages);
        assert(roll_on(st, gap, stages) == st.ended()) by {
            if gap.len() > 0 {
                lemma_on_front(st, gap, stages);
                assert(gap.skip(1) =~= Seq::empty());
            }
        }
        let end = roll_on(st.ended(), b.lines, stages);
        assert(shape::follow(prev, bs) =~= gap + (b.lines + after));
        lemma_on_concat(st, gap, b.lines + after, stages);
        lemma_on_concat(st.ended(), b.lines, after, stages);
        lemma_block_on(st.ended(), b, stages);
        lemma_follow_and_blocks(end, b, more, stages);
    }
}

/// Normalizing blank lines leaves the postings alone.
proof fn lemma_normalized(ls: Seq<Seq<char>>, stages: Seq<Ctx>)
    ensures
        fmt::all_posts(fmt::styled_stages_spec(blank::normalize_spec(ls), stages, plainly()))
            == fmt::all_posts(fmt::styled_stages_spec(ls, stages, plainly())),
{
    let none = Seq::<Seq<char>>::empty();
    let st = Roll::start(stages);
    let bs = blank::parse_spec(ls, none, false);
    lemma_rolled(ls, stages);
    lemma_rolled(blank::normalize_spec(ls), stages);
    lemma_text_and_blocks(st, ls, none, false, stages);
    assert(none + ls =~= ls);
    shape::lemma_parse_chain(ls, none, false);
    if bs.len() > 0 {
        shape::lemma_join_front(bs);
        shape::lemma_chain_skip(bs);
        let b = bs[0];
        let more = bs.skip(1);
        lemma_on_concat(st, b.lines, shape::follow(b, more), stages);
        assert(st.ended() == st);
        let end = roll_on(st, b.lines, stages);
        lemma_block_on(st, b, stages);
        lemma_follow_and_blocks(end, b, more, stages);
    } else {
        assert(blank::normalize_spec(ls) =~= none);
    }
}

/// The columns that the lines of a file ask for are those that formatting lays
/// the file out in: blank lines that it puts in or takes out change none.
pub proof fn normalizing_keeps_the_widths(ls: Seq<Seq<char>>, inherited: Seq<(usize, Ctx)>)
    ensures
        tree::widths_at_spec(blank::normalize_spec(ls), inherited) == tree::widths_at_spec(
            ls,
            inherited,
        ),
{
    scanned::normalizing_keeps_the_styles(ls);
    lemma_normalized(ls, tree::stages_spec(fmt::scan_ctx_spec(ls), inherited));
}

} // verus!
