//! Texts that formatting leaves as they are, and how widths add up.

use vstd::prelude::*;
use crate::amount::Ctx;
use crate::fmt::{self, Classify, Options};
use crate::fmt::blank::{self, Block};
use crate::fmt::laws;
use crate::fmt::posting::Post;
use crate::fmt::refill;
use crate::fmt::shape;
use crate::lex;
use crate::text::{self, CharClass};
use crate::tokens;

verus! {

// ---- texts without transactions ----

/// Whether lines hold no transaction, and no blank line that is not empty, or
/// that comes first, last or right behind another; `gap` is whether the start
/// or a blank line stands right before them. What stands in a `comment` block is
/// its own affair.
pub open spec fn neat(rest: Seq<Seq<char>>, gap: bool) -> bool
    decreases rest.len(),
{
    if rest.len() == 0 {
        !gap
    } else if lex::opens_block_spec(rest[0]) {
        let n = lex::block_len_spec(rest.skip(1));
        proof {
            blank::lemma_block_len(rest.skip(1));
        }
        neat(rest.skip(1).skip(n), false)
    } else if lex::is_blank_spec(rest[0]) {
        !gap && rest[0].len() == 0 && neat(rest.skip(1), true)
    } else {
        !lex::opens_txn_spec(rest[0]) && neat(rest.skip(1), false)
    }
}

proof fn lemma_neat_indented(ls: Seq<Seq<char>>)
    requires
        neat(ls, false),
    ensures
        neat(ls.skip(blank::indented_len_spec(ls)), false),
    decreases ls.len(),
{
    blank::lemma_indented_len(ls);
    if ls.len() > 0 && lex::is_indented_spec(ls[0]) {
        laws::lemma_indented_kind(ls[0]);
        lemma_neat_indented(ls.skip(1));
        let n = blank::indented_len_spec(ls.skip(1));
        assert(ls.skip(1).skip(n) =~= ls.skip(n + 1));
    } else {
        assert(ls.skip(0) =~= ls);
    }
}

/// Neat lines are the lines of their blocks.
proof fn lemma_neat_blocks(
    rest: Seq<Seq<char>>,
    pending: Seq<Seq<char>>,
    b: bool,
    prev: Block,
)
    requires
        forall|i: int| 0 <= i < pending.len() ==> lex::is_comment_spec(#[trigger] pending[i]),
        neat(rest, pending.len() == 0 && b),
        !prev.txn,
    ensures
        shape::follow(prev, blank::parse_spec(rest, pending, b)) == (if b {
            seq![Seq::<char>::empty()]
        } else {
            Seq::<Seq<char>>::empty()
        }) + pending + rest,
    decreases rest.len(),
{
    let none = Seq::<Seq<char>>::empty();
    let bs = blank::parse_spec(rest, pending, b);
    let gap = if b {
        seq![Seq::<char>::empty()]
    } else {
        none
    };
    let want = gap + pending + rest;
    if rest.len() == 0 {
        if pending.len() > 0 {
            let c = Block { txn: false, lines: pending, blank_before: b };
            lemma_follow_one(prev, c, Seq::empty());
            assert(bs =~= seq![c] + Seq::<Block>::empty());
            assert(shape::follow(c, Seq::empty()) =~= none);
            assert(gap + pending + none =~= want);
        } else {
            assert(bs =~= Seq::empty());
            assert(shape::follow(prev, bs) =~= want);
        }
    } else {
        let line = rest[0];
        let tail = rest.skip(1);
        if lex::is_blank_spec(line) {
            assert(!lex::opens_block_spec(line)) by {
                laws::lemma_blank_kind(line);
                lemma_empty_opens_nothing();
            }
            let more = blank::parse_spec(tail, none, true);
            assert(line =~= Seq::<char>::empty());
            assert(seq![line] + none + tail =~= rest);
            if pending.len() > 0 {
                let c = Block { txn: false, lines: pending, blank_before: b };
                lemma_neat_blocks(tail, none, true, c);
                assert(bs =~= seq![c] + more);
                lemma_follow_one(prev, c, more);
                assert(gap + pending + rest =~= want);
            } else {
                lemma_neat_blocks(tail, none, true, prev);
                assert(bs =~= more);
                assert(rest =~= want);
            }
        } else if lex::is_comment_spec(line) {
            assert(!lex::opens_block_spec(line) && !lex::opens_txn_spec(line)) by {
                lemma_comment_opens_nothing(line);
            }
            let p = pending.push(line);
            assert forall|i: int| 0 <= i < p.len() implies lex::is_comment_spec(#[trigger] p[i]) by {
                if i < pending.len() {
                    assert(p[i] == pending[i]);
                }
            }
            lemma_neat_blocks(tail, p, b, prev);
            assert(gap + p + tail =~= want);
        } else {
            let n = blank::body_len_spec(line, tail);
            blank::lemma_body_len(line, tail);
            let after = tail.skip(n);
            let ls = pending.push(line) + tail.take(n);
            if !lex::opens_block_spec(line) {
                lemma_neat_indented(tail);
            }
            assert(neat(after, false));
            assert(!lex::opens_txn_spec(line)) by {
                if lex::opens_block_spec(line) {
                    lemma_opener_is_no_txn(line);
                }
            }
            let c = Block { txn: false, lines: ls, blank_before: b };
            lemma_neat_blocks(after, none, false, c);
            let more = blank::parse_spec(after, none, false);
            assert(bs =~= seq![c] + more);
            lemma_follow_one(prev, c, more);
            assert(none + none + after =~= after);
            assert(gap + ls + after =~= want);
        }
    }
}

proof fn lemma_follow_one(prev: Block, c: Block, more: Seq<Block>)
    requires
        !prev.txn,
        !c.txn,
    ensures
        shape::follow(prev, seq![c] + more) == (if c.blank_before {
            seq![Seq::<char>::empty()]
        } else {
            Seq::<Seq<char>>::empty()
        }) + c.lines + shape::follow(c, more),
{
    let bs = seq![c] + more;
    assert(bs[0] == c);
    assert(bs.skip(1) =~= more);
}

proof fn lemma_empty_opens_nothing()
    ensures
        !lex::opens_block_spec(Seq::<char>::empty()),
{
    reveal_strlit("comment");
    crate::fmt::reread::lemma_rstrip(Seq::<char>::empty());
}

proof fn lemma_comment_opens_nothing(l: Seq<char>)
    requires
        lex::is_comment_spec(l),
    ensures
        !lex::opens_block_spec(l),
        !lex::opens_txn_spec(l),
{
    reveal_strlit("comment");
    crate::fmt::reread::lemma_rstrip(l);
    if lex::opens_block_spec(l) {
        assert(lex::rstrip_spec(l)[0] == l[0]);
    }
}

proof fn lemma_opener_is_no_txn(l: Seq<char>)
    requires
        lex::opens_block_spec(l),
    ensures
        !lex::opens_txn_spec(l),
        !lex::is_blank_spec(l),
{
    reveal_strlit("comment");
    crate::fmt::reread::lemma_rstrip(l);
    assert(lex::rstrip_spec(l)[0] == l[0]);
}

/// Neat lines have their blank lines in place.
proof fn lemma_neat_is_normal(ls: Seq<Seq<char>>)
    requires
        ls.len() == 0 || neat(ls, true),
    ensures
        blank::normalize_spec(ls) == ls,
{
    let none = Seq::<Seq<char>>::empty();
    let bs = blank::parse_spec(ls, none, false);
    if ls.len() == 0 {
        assert(bs =~= Seq::empty());
        assert(blank::normalize_spec(ls) =~= ls);
    } else {
        let prev = Block { txn: false, lines: none, blank_before: false };
        assert(neat(ls, false)) by {
            if lex::opens_block_spec(ls[0]) {
                lemma_opener_is_no_txn(ls[0]);
            }
        }
        lemma_neat_blocks(ls, none, false, prev);
        assert(none + none + ls =~= ls);
        assert(bs.len() > 0) by {
            if bs.len() == 0 {
                assert(shape::follow(prev, bs) =~= none);
            }
        }
        shape::lemma_first(ls, none, false);
        shape::lemma_join_front(bs);
        lemma_first_block(ls);
        assert(bs =~= seq![bs[0]] + bs.skip(1));
        lemma_follow_one(prev, bs[0], bs.skip(1));
        assert(none + bs[0].lines + shape::follow(bs[0], bs.skip(1)) =~= bs[0].lines
            + shape::follow(bs[0], bs.skip(1)));
    }
}

/// The first of neat blocks is no transaction, and no blank line precedes it.
proof fn lemma_first_block(ls: Seq<Seq<char>>)
    requires
        neat(ls, true),
    ensures
        ({
            let bs = blank::parse_spec(ls, Seq::empty(), false);
            bs.len() > 0 ==> !bs[0].txn && !bs[0].blank_before
        }),
{
    lemma_first_of(ls, Seq::empty());
}

proof fn lemma_first_of(rest: Seq<Seq<char>>, pending: Seq<Seq<char>>)
    requires
        neat(rest, pending.len() == 0),
    ensures
        ({
            let bs = blank::parse_spec(rest, pending, false);
            bs.len() > 0 ==> !bs[0].txn && !bs[0].blank_before
        }),
    decreases rest.len(),
{
    if rest.len() > 0 {
        let line = rest[0];
        if lex::opens_block_spec(line) {
            lemma_opener_is_no_txn(line);
        }
        if lex::is_blank_spec(line) {
        } else if lex::is_comment_spec(line) {
            lemma_comment_opens_nothing(line);
            lemma_first_of(rest.skip(1), pending.push(line));
        }
    }
}

/// Whether each line is written as it stands.
#[verifier::opaque]
pub open spec fn stay(ls: Seq<Seq<char>>, ctx: Ctx, opts: Options) -> bool {
    forall|i: int|
        0 <= i < ls.len() ==> {
            let c = laws::class_of(Classify::over(ls.take(i), ctx, opts), #[trigger] ls[i], ctx, opts);
            !(c is Post) && (c is Other ==> fmt::format_other_spec(ls[i]) == ls[i])
        }
}

/// One line more that is written as it stands.
proof fn lemma_stay_push(pre: Seq<Seq<char>>, l: Seq<char>, ctx: Ctx, opts: Options)
    requires
        stay(pre, ctx, opts),
        ({
            let c = laws::class_of(Classify::over(pre, ctx, opts), l, ctx, opts);
            !(c is Post) && (c is Other ==> fmt::format_other_spec(l) == l)
        }),
    ensures
        stay(pre.push(l), ctx, opts),
        ({
            let a = Classify::over(pre, ctx, opts);
            let b = Classify::over(pre.push(l), ctx, opts);
            if a.opaque {
                b.opaque == !lex::closes_block_spec(l) && b.in_txn == a.in_txn
            } else if lex::opens_block_spec(l) {
                b.opaque && !b.in_txn
            } else {
                !b.opaque && b.in_txn == lex::opens_txn_spec(l)
            }
        }),
{
    reveal(stay);
    let ls = pre.push(l);
    assert(ls.drop_last() =~= pre);
    assert forall|i: int| 0 <= i < ls.len() implies {
        let c = laws::class_of(Classify::over(ls.take(i), ctx, opts), #[trigger] ls[i], ctx, opts);
        !(c is Post) && (c is Other ==> fmt::format_other_spec(ls[i]) == ls[i])
    } by {
        if i < pre.len() {
            assert(ls[i] == pre[i]);
            assert(ls.take(i) =~= pre.take(i));
        } else {
            assert(ls.take(i) =~= pre);
        }
    }
}

/// The lines of a `comment` block are written as they stand.
proof fn lemma_stay_block(
    pre: Seq<Seq<char>>,
    body: Seq<Seq<char>>,
    n: int,
    ctx: Ctx,
    opts: Options,
)
    requires
        !opts.explicit,
        stay(pre, ctx, opts),
        Classify::over(pre, ctx, opts).opaque,
        !Classify::over(pre, ctx, opts).in_txn,
        n == lex::block_len_spec(body),
    ensures
        0 <= n <= body.len(),
        stay(pre + body.take(n), ctx, opts),
        !Classify::over(pre + body.take(n), ctx, opts).in_txn,
        n < body.len() ==> !Classify::over(pre + body.take(n), ctx, opts).opaque,
    decreases body.len(),
{
    blank::lemma_block_len(body);
    if body.len() == 0 {
        assert(pre + body.take(0) =~= pre);
    } else {
        let l = body[0];
        lemma_stay_push(pre, l, ctx, opts);
        let next = pre.push(l);
        if lex::closes_block_spec(l) {
            assert(pre + body.take(1) =~= next);
        } else {
            lemma_stay_block(next, body.skip(1), n - 1, ctx, opts);
            assert(next + body.skip(1).take(n - 1) =~= pre + body.take(n));
        }
    }
}

/// Whether lines are written as they stand, and end outside of everything.
#[verifier::opaque]
pub open spec fn ready(pre: Seq<Seq<char>>, ctx: Ctx, opts: Options) -> bool {
    &&& stay(pre, ctx, opts)
    &&& !Classify::over(pre, ctx, opts).opaque
    &&& !Classify::over(pre, ctx, opts).in_txn
}

proof fn lemma_ready(pre: Seq<Seq<char>>, ctx: Ctx, opts: Options)
    requires
        ready(pre, ctx, opts),
    ensures
        stay(pre, ctx, opts),
{
    reveal(ready);
}

/// A line that opens nothing is written as it stands.
proof fn lemma_neat_line(pre: Seq<Seq<char>>, l: Seq<char>, ctx: Ctx, opts: Options)
    requires
        !opts.explicit,
        ready(pre, ctx, opts),
        !lex::opens_block_spec(l),
        !lex::opens_txn_spec(l),
        lex::is_blank_spec(l) ==> l.len() == 0,
    ensures
        ready(pre.push(l), ctx, opts),
{
    reveal(ready);
    assert(fmt::format_other_spec(l) =~= l);
    lemma_stay_push(pre, l, ctx, opts);
}

/// A `comment` block is written as it stands.
proof fn lemma_neat_block(
    pre: Seq<Seq<char>>,
    l: Seq<char>,
    tail: Seq<Seq<char>>,
    n: int,
    ctx: Ctx,
    opts: Options,
)
    requires
        !opts.explicit,
        ready(pre, ctx, opts),
        lex::opens_block_spec(l),
        n == lex::block_len_spec(tail),
    ensures
        0 <= n <= tail.len(),
        stay(pre.push(l) + tail.take(n), ctx, opts),
        n < tail.len() ==> ready(pre.push(l) + tail.take(n), ctx, opts),
{
    reveal(ready);
    lemma_stay_push(pre, l, ctx, opts);
    lemma_stay_block(pre.push(l), tail, n, ctx, opts);
}

proof fn lemma_neat_stays(
    pre: Seq<Seq<char>>,
    rest: Seq<Seq<char>>,
    gap: bool,
    ctx: Ctx,
    opts: Options,
)
    requires
        !opts.explicit,
        ready(pre, ctx, opts) || stay(pre, ctx, opts) && rest.len() == 0,
        neat(rest, gap),
    ensures
        stay(pre + rest, ctx, opts),
    decreases rest.len(),
{
    if rest.len() == 0 {
        assert(pre + rest =~= pre);
        if ready(pre, ctx, opts) {
            lemma_ready(pre, ctx, opts);
        }
    } else {
        let l = rest[0];
        let tail = rest.skip(1);
        let next = pre.push(l);
        if lex::opens_block_spec(l) {
            let n = lex::block_len_spec(tail);
            lemma_neat_block(pre, l, tail, n, ctx, opts);
            let more = next + tail.take(n);
            lemma_neat_stays(more, tail.skip(n), false, ctx, opts);
            assert(more + tail.skip(n) =~= pre + rest);
        } else {
            if lex::is_blank_spec(l) {
                laws::lemma_blank_kind(l);
            }
            lemma_neat_line(pre, l, ctx, opts);
            lemma_neat_stays(next, tail, lex::is_blank_spec(l), ctx, opts);
            assert(next + tail =~= pre + rest);
        }
    }
}

/// A text is its parts between newlines, with the newlines.
proof fn lemma_resplit(s: Seq<char>)
    ensures
        ({
            let parts = text::split_spec(s, CharClass::Is('\n'));
            &&& parts.len() > 0
            &&& fmt::unlines_spec(parts.drop_last()) + parts.last() == s
        }),
    decreases s.len(),
{
    let class = CharClass::Is('\n');
    let n = text::run_spec(s, class, false);
    let parts = text::split_spec(s, class);
    text::lemma_run(s, class, false);
    if n >= s.len() {
        assert(parts.drop_last() =~= Seq::empty());
        assert(fmt::unlines_spec(parts.drop_last()) + parts.last() =~= s);
    } else {
        let rest = s.skip(n + 1);
        lemma_resplit(rest);
        let more = text::split_spec(rest, class);
        assert(parts =~= seq![s.take(n)] + more);
        let front = parts.drop_last();
        assert(front =~= seq![s.take(n)] + more.drop_last());
        assert(front.skip(1) =~= more.drop_last());
        tokens::lemma_unlines_front(front);
        assert(front[0] == s.take(n));
        assert(s[n] == '\n');
        assert(parts.last() == more.last());
        assert(fmt::unlines_spec(front) + parts.last() =~= s.take(n).push('\n') + (
        fmt::unlines_spec(more.drop_last()) + more.last()));
        assert(s.take(n).push('\n') + rest =~= s);
    }
}

/// A text comes back from its lines.
proof fn lemma_relined(s: Seq<char>)
    requires
        s.len() == 0 || s.last() == '\n',
    ensures
        fmt::unlines_spec(fmt::lines_spec(s)) == s,
{
    let parts = text::split_spec(s, CharClass::Is('\n'));
    if s.len() > 0 {
        lemma_resplit(s);
        tokens::lemma_split_pieces(s);
        let z = parts.last();
        if z.len() > 0 {
            assert(s.last() == z.last());
            assert(z.contains(z[z.len() - 1]));
            assert(z == parts[parts.len() - 1]);
        }
        assert(fmt::unlines_spec(parts.drop_last()) + z =~= fmt::unlines_spec(parts.drop_last()));
    }
}

/// A file without transactions whose blank lines are in place is formatted to
/// itself: directives, comments, prices, includes, periodic and auto rules and
/// indented subdirectives pass through to the letter.
pub proof fn a_neat_file_comes_back_unchanged(s: Seq<char>, ctx: Ctx)
    requires
        s.len() == 0 || s.last() == '\n' && neat(fmt::lines_spec(s), true),
    ensures
        fmt::format_spec(s, ctx, Options { sort: false, explicit: false }) == s,
{
    let opts = Options { sort: false, explicit: false };
    let ls = fmt::lines_spec(s);
    let none = Seq::<Seq<char>>::empty();
    lemma_relined(s);
    lemma_neat_is_normal(ls);
    reveal(stay);
    assert(stay(none, ctx, opts));
    assert(ready(none, ctx, opts)) by {
        reveal(ready);
    }
    if ls.len() > 0 {
        lemma_neat_stays(none, ls, true, ctx, opts);
        assert(none + ls =~= ls);
    } else {
        assert(ls =~= none);
    }
    laws::lemma_format_lines(ls, ctx, opts);
    laws::lemma_classes(ls, ctx, opts);
    let ws = fmt::format_lines_spec(ls, ctx, opts);
    assert(ws =~= ls) by {
        assert forall|i: int| 0 <= i < ls.len() implies ws[i] == ls[i] by {
            assert(!(laws::class_of(
                Classify::over(ls.take(i), ctx, opts),
                ls[i],
                ctx,
                opts,
            ) is Post));
            assert(fmt::styled_spec(ls, ctx, opts)[i] == laws::class_of(
                Classify::over(ls.take(i), ctx, opts),
                ls[i],
                ctx,
                opts,
            ));
        }
    }
}

// ---- widths ----

proof fn lemma_widths_concat(a: Seq<Post>, b: Seq<Post>)
    ensures
        fmt::account_width(a + b) == fmt::longer(fmt::account_width(a), fmt::account_width(b)),
        fmt::number_width(a + b) == fmt::longer(fmt::number_width(a), fmt::number_width(b)),
    decreases b.len(),
{
    if b.len() == 0 {
        assert(a + b =~= a);
    } else {
        lemma_widths_concat(a, b.drop_last());
        assert((a + b).drop_last() =~= a + b.drop_last());
        assert((a + b).last() == b.last());
    }
}

/// Behind a transaction header, lines are classified by themselves.
proof fn lemma_joined_classes(
    a: Seq<Seq<char>>,
    b: Seq<Seq<char>>,
    ctx: Ctx,
    opts: Options,
    n: int,
)
    requires
        !opts.explicit,
        b.len() > 0,
        lex::opens_txn_spec(b[0]),
        !Classify::over(a, ctx, opts).opaque,
        Classify::over(a, ctx, opts).mark == ctx.decimal_mark,
        1 <= n <= b.len(),
    ensures
        ({
            let both = Classify::over(a + b.take(n), ctx, opts);
            let alone = Classify::over(b.take(n), ctx, opts);
            &&& laws::same_point(both, alone)
            &&& both.out == Classify::over(a, ctx, opts).out + alone.out
        }),
    decreases n,
{
    let x = Classify::over(a, ctx, opts);
    assert((a + b.take(n)).drop_last() =~= a + b.take(n - 1));
    assert((a + b.take(n)).last() == b[n - 1]);
    assert(b.take(n).drop_last() =~= b.take(n - 1));
    assert(b.take(n).last() == b[n - 1]);
    let both = Classify::over(a + b.take(n), ctx, opts);
    let alone = Classify::over(b.take(n), ctx, opts);
    if n == 1 {
        assert(a + b.take(0) =~= a);
        assert(b.take(0) =~= Seq::empty());
        assert(!lex::opens_block_spec(b[0])) by {
            if lex::opens_block_spec(b[0]) {
                lemma_opener_is_no_txn(b[0]);
            }
        }
        assert(!lex::is_indented_spec(b[0]));
        assert(both.out =~= x.out + alone.out);
    } else {
        lemma_joined_classes(a, b, ctx, opts, n - 1);
        let p = Classify::over(a + b.take(n - 1), ctx, opts);
        let q = Classify::over(b.take(n - 1), ctx, opts);
        assert(both == p.step(b[n - 1], ctx, opts));
        assert(alone == q.step(b[n - 1], ctx, opts));
        assert(both.out =~= x.out + alone.out);
    }
}

/// Widths are file-wide, never per transaction: those of two texts joined at a
/// transaction are the larger of each, where the first ends outside a `comment`
/// block and under the decimal mark it began with.
pub proof fn widths_of_joined_texts(a: Seq<Seq<char>>, b: Seq<Seq<char>>, ctx: Ctx)
    requires
        b.len() > 0,
        lex::opens_txn_spec(b[0]),
        ({
            let end = Classify::over(a, ctx, Options { sort: false, explicit: false });
            !end.opaque && end.mark == ctx.decimal_mark
        }),
    ensures
        ({
            let (a1, n1) = fmt::widths_spec(a, ctx);
            let (a2, n2) = fmt::widths_spec(b, ctx);
            fmt::widths_spec(a + b, ctx) == (fmt::longer(a1, a2), fmt::longer(n1, n2))
        }),
{
    let opts = Options { sort: false, explicit: false };
    let n = b.len() as int;
    lemma_joined_classes(a, b, ctx, opts, n);
    assert(b.take(n) =~= b);
    laws::lemma_classes(a, ctx, opts);
    laws::lemma_classes(b, ctx, opts);
    laws::lemma_classes(a + b, ctx, opts);
    let x = fmt::styled_spec(a, ctx, opts);
    let y = fmt::styled_spec(b, ctx, opts);
    assert(fmt::styled_spec(a + b, ctx, opts) == x + y);
    refill::lemma_posts_concat(x, y);
    lemma_widths_concat(fmt::all_posts(x), fmt::all_posts(y));
}

} // verus!
