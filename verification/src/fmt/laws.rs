//! What formatting promises as a whole.

use vstd::prelude::*;
use crate::amount::Ctx;
use crate::fmt::{self, Classify, Options};
use crate::fmt::blank;
use crate::fmt::explicit::Line;
use crate::fmt::posting::{self, Post};
use crate::fmt::reread;
use crate::fmt::settle;
use crate::fmt::shape;
use crate::lex;
use crate::text;
use crate::tokens;

verus! {

// ---- one line at a time ----

/// The class of a line where it stands.
pub open spec fn class_of(at: Classify, l: Seq<char>, ctx: Ctx, opts: Options) -> Line {
    if at.opaque || lex::opens_block_spec(l) {
        Line::Opaque
    } else if at.in_txn && lex::is_indented_spec(l) {
        Line::Post(
            seq![
                posting::restyle_post_spec(
                    posting::parse_posting_spec(l),
                    fmt::marked(ctx, at.mark),
                    opts.places_spec(),
                ),
            ],
        )
    } else {
        Line::Other
    }
}

/// Without filling in, each line is classified where it stands.
pub proof fn lemma_classes(ls: Seq<Seq<char>>, ctx: Ctx, opts: Options)
    requires
        !opts.explicit,
    ensures
        fmt::styled_spec(ls, ctx, opts) == Classify::over(ls, ctx, opts).out,
        fmt::styled_spec(ls, ctx, opts).len() == ls.len(),
        forall|i: int|
            0 <= i < ls.len() ==> #[trigger] fmt::styled_spec(ls, ctx, opts)[i] == class_of(
                Classify::over(ls.take(i), ctx, opts),
                ls[i],
                ctx,
                opts,
            ),
    decreases ls.len(),
{
    let out = Classify::over(ls, ctx, opts).out;
    if ls.len() > 0 {
        let front = ls.drop_last();
        lemma_classes(front, ctx, opts);
        let before = Classify::over(front, ctx, opts);
        let n = front.len() as int;
        assert(ls.take(n) =~= front);
        assert(out =~= before.out.push(class_of(before, ls.last(), ctx, opts)));
        assert forall|i: int| 0 <= i < ls.len() implies #[trigger] out[i] == class_of(
            Classify::over(ls.take(i), ctx, opts),
            ls[i],
            ctx,
            opts,
        ) by {
            if i < n {
                assert(front.take(i) =~= ls.take(i));
                assert(front[i] == ls[i]);
                assert(before.out[i] == fmt::styled_spec(front, ctx, opts)[i]);
            }
        }
    }
}

/// What a line is written as where no amounts are filled in.
pub open spec fn line_of(acc_w: nat, num_w: nat, l: Seq<char>, c: Line) -> Seq<char> {
    match c {
        Line::Post(ps) => posting::render_spec(acc_w, num_w, ps[0]),
        Line::Other => fmt::format_other_spec(l),
        Line::Opaque => l,
    }
}

/// Without filling in, one line is written for each.
proof fn lemma_upto(
    acc_w: nat,
    num_w: nat,
    ls: Seq<Seq<char>>,
    styled: Seq<Line>,
    n: int,
)
    requires
        0 <= n <= ls.len(),
        ls.len() == styled.len(),
        forall|i: int| 0 <= i < styled.len() ==> (#[trigger] styled[i] matches Line::Post(ps)
            ==> ps.len() == 1),
    ensures
        fmt::format_upto_spec(acc_w, num_w, ls, styled, n) == Seq::new(
            n as nat,
            |i: int| line_of(acc_w, num_w, ls[i], styled[i]),
        ),
    decreases n,
{
    if n > 0 {
        lemma_upto(acc_w, num_w, ls, styled, n - 1);
        let one = fmt::format_line_spec(acc_w, num_w, ls[n - 1], styled[n - 1]);
        assert(one =~= seq![line_of(acc_w, num_w, ls[n - 1], styled[n - 1])]);
    }
    assert(fmt::format_upto_spec(acc_w, num_w, ls, styled, n) =~= Seq::new(
        n as nat,
        |i: int| line_of(acc_w, num_w, ls[i], styled[i]),
    ));
}

/// Formatted lines, one for each.
pub proof fn lemma_format_lines(ls: Seq<Seq<char>>, ctx: Ctx, opts: Options)
    requires
        !opts.explicit,
    ensures
        ({
            let styled = fmt::styled_spec(ls, ctx, opts);
            let ps = fmt::all_posts(styled);
            fmt::format_lines_spec(ls, ctx, opts) == Seq::new(
                ls.len(),
                |i: int|
                    line_of(fmt::account_width(ps), fmt::number_width(ps), ls[i], styled[i]),
            )
        }),
{
    let styled = fmt::styled_spec(ls, ctx, opts);
    let ps = fmt::all_posts(styled);
    lemma_classes(ls, ctx, opts);
    lemma_upto(fmt::account_width(ps), fmt::number_width(ps), ls, styled, ls.len() as int);
}

// ---- what a formatted line is like ----

/// A directive is found only in a line that begins as it does.
pub proof fn lemma_no_directive(l: Seq<char>, keyword: Seq<char>)
    requires
        keyword.len() > 0,
        l.len() == 0 || l[0] != keyword[0],
    ensures
        lex::directive_arg_spec(l, keyword) is None,
{
    if keyword.is_prefix_of(l) {
        assert(l[0] == keyword[0]);
    }
}

/// The first character of a stripped line is that of the line.
proof fn lemma_strip_kind(l: Seq<char>)
    requires
        !lex::is_blank_spec(l),
    ensures
        shape::alike(l, lex::rstrip_spec(l)),
{
    reread::lemma_rstrip(l);
    let r = lex::rstrip_spec(l);
    assert(r[0] == l[0]);
    reread::lemma_rstrip(r);
}

/// An indented line opens and closes nothing.
pub proof fn lemma_indented_kind(l: Seq<char>)
    requires
        lex::is_indented_spec(l),
    ensures
        !lex::is_comment_spec(l),
        !lex::opens_block_spec(l),
        !lex::closes_block_spec(l),
        !lex::opens_txn_spec(l),
{
    reveal_strlit("comment");
    reveal_strlit("end comment");
    reread::lemma_rstrip(l);
    let r = lex::rstrip_spec(l);
    assert(r[0] == l[0]);
}

/// An empty line is of the kind of every blank one.
pub proof fn lemma_blank_kind(l: Seq<char>)
    requires
        lex::is_blank_spec(l),
    ensures
        shape::alike(l, Seq::empty()),
        !lex::opens_txn_spec(l),
{
    reveal_strlit("comment");
    reveal_strlit("end comment");
    let none = Seq::<char>::empty();
    reread::lemma_rstrip(l);
    reread::lemma_rstrip(none);
    if l.len() > 0 {
        assert(text::is_white(l[0]));
    }
}

/// A line that is neither a posting nor opaque is written as a line of its
/// kind, which is written as it is again.
pub proof fn lemma_other(l: Seq<char>)
    ensures
        shape::alike(l, fmt::format_other_spec(l)),
        fmt::format_other_spec(fmt::format_other_spec(l)) == fmt::format_other_spec(l),
        lex::directive_arg_spec(fmt::format_other_spec(l), "decimal-mark"@)
            == lex::directive_arg_spec(l, "decimal-mark"@),
        !l.contains('\n') ==> !fmt::format_other_spec(l).contains('\n'),
{
    reveal_strlit("decimal-mark");
    let f = fmt::format_other_spec(l);
    if lex::is_blank_spec(l) {
        lemma_blank_kind(l);
        if l.len() > 0 {
            assert(text::is_white(l[0]));
        }
        lemma_no_directive(l, "decimal-mark"@);
        lemma_no_directive(f, "decimal-mark"@);
        assert(lex::is_blank_spec(f));
    } else if lex::opens_txn_spec(l) {
        lemma_strip_kind(l);
        reread::lemma_rstrip(l);
        assert(f[0] == l[0]);
        lemma_no_directive(l, "decimal-mark"@);
        lemma_no_directive(f, "decimal-mark"@);
        if f.contains('\n') {
            let i = choose|i: int| 0 <= i < f.len() && f[i] == '\n';
            assert(l[i] == '\n');
        }
    }
}

/// The mark in effect is always one.
pub proof fn lemma_marks(ls: Seq<Seq<char>>, ctx: Ctx, opts: Options)
    requires
        settle::clean(ctx),
    ensures
        settle::clean(fmt::marked(ctx, Classify::over(ls, ctx, opts).mark)),
    decreases ls.len(),
{
    if ls.len() > 0 {
        lemma_marks(ls.drop_last(), ctx, opts);
        let c = Classify::over(ls.drop_last(), ctx, opts);
        assert(Classify::over(ls, ctx, opts) == c.step(ls.last(), ctx, opts));
        assert(c.close(ctx, opts).mark == c.mark);
    }
}

/// Whether restyling leaves the postings of lines alone once it has restyled
/// them: each reads back as a posting that is restyled to what it was.
pub open spec fn settles(ls: Seq<Seq<char>>, ctx: Ctx, opts: Options) -> bool {
    forall|i: int|
        0 <= i < ls.len() ==> (#[trigger] fmt::styled_spec(ls, ctx, opts)[i] matches Line::Post(ps)
            ==> posting::restyle_post_spec(
            reread::reread(ps[0]),
            fmt::marked(ctx, Classify::over(ls.take(i), ctx, opts).mark),
            opts.places_spec(),
        ) == ps[0])
}

/// What a line is written as is a line of its kind, without a newline.
pub proof fn lemma_line_kind(
    acc_w: nat,
    num_w: nat,
    at: Classify,
    l: Seq<char>,
    ctx: Ctx,
    opts: Options,
)
    requires
        settle::clean(fmt::marked(ctx, at.mark)),
        !l.contains('\n'),
    ensures
        ({
            let c = class_of(at, l, ctx, opts);
            &&& shape::alike(l, line_of(acc_w, num_w, l, c))
            &&& !line_of(acc_w, num_w, l, c).contains('\n')
            &&& c matches Line::Post(ps) ==> reread::plain_post(ps[0])
        }),
{
    let c = class_of(at, l, ctx, opts);
    let out = line_of(acc_w, num_w, l, c);
    lemma_other(l);
    if let Line::Post(ps) = c {
        let p = posting::parse_posting_spec(l);
        settle::lemma_parsed_plain(l);
        settle::lemma_restyled_plain(p, fmt::marked(ctx, at.mark), opts.places_spec());
        settle::lemma_laid_out_line(acc_w, num_w, ps[0]);
        lemma_indented_kind(l);
        lemma_indented_kind(out);
    }
}

/// Whether two classifications are at the same point.
pub open spec fn same_point(a: Classify, b: Classify) -> bool {
    a.mark == b.mark && a.in_txn == b.in_txn && a.opaque == b.opaque
}

/// One line further, from the same point, over a line and what it is written
/// as.
proof fn lemma_same_step(
    acc_w: nat,
    num_w: nat,
    a: Classify,
    b: Classify,
    l: Seq<char>,
    ctx: Ctx,
    opts: Options,
)
    requires
        !opts.explicit,
        same_point(a, b),
        settle::clean(fmt::marked(ctx, a.mark)),
        !l.contains('\n'),
        class_of(a, l, ctx, opts) matches Line::Post(ps) ==> posting::restyle_post_spec(
            reread::reread(ps[0]),
            fmt::marked(ctx, a.mark),
            opts.places_spec(),
        ) == ps[0],
    ensures
        ({
            let c = class_of(a, l, ctx, opts);
            let w = line_of(acc_w, num_w, l, c);
            &&& class_of(b, w, ctx, opts) == c
            &&& same_point(a.step(l, ctx, opts), b.step(w, ctx, opts))
            &&& line_of(acc_w, num_w, w, c) == w
        }),
{
    let c = class_of(a, l, ctx, opts);
    let w = line_of(acc_w, num_w, l, c);
    lemma_line_kind(acc_w, num_w, a, l, ctx, opts);
    lemma_other(l);
    if let Line::Post(ps) = c {
        reread::lemma_laid_out(acc_w, num_w, ps[0]);
        assert(class_of(b, w, ctx, opts) == Line::Post(seq![ps[0]]));
        assert(ps =~= seq![ps[0]]);
    }
}

/// One line more is classified from where the lines before it lead.
pub proof fn lemma_over(ls: Seq<Seq<char>>, ctx: Ctx, opts: Options, n: int)
    requires
        0 <= n < ls.len(),
    ensures
        Classify::over(ls.take(n + 1), ctx, opts) == Classify::over(ls.take(n), ctx, opts).step(
            ls[n],
            ctx,
            opts,
        ),
{
    assert(ls.take(n + 1).drop_last() =~= ls.take(n));
    assert(ls.take(n + 1).last() == ls[n]);
}

/// Whether lines and what they are written as are classified alike up to a
/// point.
pub open spec fn in_step(
    acc_w: nat,
    num_w: nat,
    ls: Seq<Seq<char>>,
    ws: Seq<Seq<char>>,
    ctx: Ctx,
    opts: Options,
    n: int,
) -> bool {
    let styled = fmt::styled_spec(ls, ctx, opts);
    &&& same_point(
        Classify::over(ls.take(n), ctx, opts),
        Classify::over(ws.take(n), ctx, opts),
    )
    &&& forall|i: int|
        0 <= i < n ==> styled[i] == #[trigger] fmt::styled_spec(ws, ctx, opts)[i]
    &&& forall|i: int|
        0 <= i < n ==> line_of(acc_w, num_w, #[trigger] ws[i], styled[i]) == ws[i]
}

/// Lines and what they are written as are classified alike.
proof fn lemma_same_classes(
    acc_w: nat,
    num_w: nat,
    ls: Seq<Seq<char>>,
    ws: Seq<Seq<char>>,
    ctx: Ctx,
    opts: Options,
    n: int,
)
    requires
        !opts.explicit,
        settle::clean(ctx),
        settles(ls, ctx, opts),
        forall|i: int| 0 <= i < ls.len() ==> !(#[trigger] ls[i]).contains('\n'),
        ws == Seq::new(
            ls.len(),
            |i: int| line_of(acc_w, num_w, ls[i], fmt::styled_spec(ls, ctx, opts)[i]),
        ),
        0 <= n <= ls.len(),
    ensures
        in_step(acc_w, num_w, ls, ws, ctx, opts, n),
    decreases n,
{
    if n > 0 {
        let m = n - 1;
        lemma_same_classes(acc_w, num_w, ls, ws, ctx, opts, m);
        lemma_next_class(acc_w, num_w, ls, ws, ctx, opts, m);
    } else {
        assert(ls.take(0) =~= ws.take(0));
    }
}

#[verifier::rlimit(60)]
proof fn lemma_next_class(
    acc_w: nat,
    num_w: nat,
    ls: Seq<Seq<char>>,
    ws: Seq<Seq<char>>,
    ctx: Ctx,
    opts: Options,
    m: int,
)
    requires
        !opts.explicit,
        settle::clean(ctx),
        settles(ls, ctx, opts),
        forall|i: int| 0 <= i < ls.len() ==> !(#[trigger] ls[i]).contains('\n'),
        ws == Seq::new(
            ls.len(),
            |i: int| line_of(acc_w, num_w, ls[i], fmt::styled_spec(ls, ctx, opts)[i]),
        ),
        0 <= m < ls.len(),
        in_step(acc_w, num_w, ls, ws, ctx, opts, m),
    ensures
        in_step(acc_w, num_w, ls, ws, ctx, opts, m + 1),
{
    let a = Classify::over(ls.take(m), ctx, opts);
    let b = Classify::over(ws.take(m), ctx, opts);
    let styled = fmt::styled_spec(ls, ctx, opts);
    let again = fmt::styled_spec(ws, ctx, opts);
    let c = styled[m];
    assert(c == class_of(a, ls[m], ctx, opts)) by {
        lemma_classes(ls, ctx, opts);
    }
    assert(again[m] == class_of(b, ws[m], ctx, opts)) by {
        lemma_classes(ws, ctx, opts);
    }
    assert(settle::clean(fmt::marked(ctx, a.mark))) by {
        lemma_marks(ls.take(m), ctx, opts);
    }
    assert(ws[m] == line_of(acc_w, num_w, ls[m], c));
    lemma_same_step(acc_w, num_w, a, b, ls[m], ctx, opts);
    assert(same_point(
        Classify::over(ls.take(m + 1), ctx, opts),
        Classify::over(ws.take(m + 1), ctx, opts),
    )) by {
        lemma_over(ls, ctx, opts, m);
        lemma_over(ws, ctx, opts, m);
    }
    assert forall|i: int| 0 <= i < m + 1 implies styled[i] == #[trigger] again[i] by {}
    assert forall|i: int| 0 <= i < m + 1 implies line_of(
        acc_w,
        num_w,
        #[trigger] ws[i],
        styled[i],
    ) == ws[i] by {}
}

/// Lines that settle are reflowed once: reflowed again they stay as they are,
/// and so do their blank lines.
pub proof fn lemma_reflowed(src: Seq<Seq<char>>, ctx: Ctx, opts: Options)
    requires
        !opts.explicit,
        settle::clean(ctx),
        settles(blank::normalize_spec(src), ctx, opts),
        forall|i: int|
            0 <= i < blank::normalize_spec(src).len() ==> !(
            #[trigger] blank::normalize_spec(src)[i]).contains('\n'),
    ensures
        ({
            let ws = fmt::format_lines_spec(blank::normalize_spec(src), ctx, opts);
            &&& blank::normalize_spec(ws) == ws
            &&& fmt::format_lines_spec(ws, ctx, opts) == ws
            &&& fmt::lines_spec(fmt::unlines_spec(ws)) == ws
            &&& shape::all_alike(blank::normalize_spec(src), ws)
        }),
{
    let ls = blank::normalize_spec(src);
    let styled = fmt::styled_spec(ls, ctx, opts);
    let ps = fmt::all_posts(styled);
    let acc_w = fmt::account_width(ps);
    let num_w = fmt::number_width(ps);
    let ws = fmt::format_lines_spec(ls, ctx, opts);
    lemma_format_lines(ls, ctx, opts);
    lemma_classes(ls, ctx, opts);
    assert forall|i: int| 0 <= i < ls.len() implies shape::alike(#[trigger] ls[i], ws[i])
        && !ws[i].contains('\n') by {
        let at = Classify::over(ls.take(i), ctx, opts);
        lemma_marks(ls.take(i), ctx, opts);
        assert(styled[i] == class_of(at, ls[i], ctx, opts));
        lemma_line_kind(acc_w, num_w, at, ls[i], ctx, opts);
    }
    assert forall|i: int| 0 <= i < ws.len() implies !(#[trigger] ws[i]).contains('\n') by {
        assert(shape::alike(ls[i], ws[i]));
    }
    shape::lemma_alike_is_normal(src, ws);
    tokens::lines_come_back(ws);
    lemma_same_classes(acc_w, num_w, ls, ws, ctx, opts, ls.len() as int);
    lemma_classes(ws, ctx, opts);
    assert(fmt::styled_spec(ws, ctx, opts) =~= styled);
    lemma_format_lines(ws, ctx, opts);
    assert(fmt::format_lines_spec(ws, ctx, opts) =~= ws);
}

/// The lines that normalizing leaves are lines of the text, or empty.
pub proof fn lemma_normal_lines(rest: Seq<Seq<char>>, pending: Seq<Seq<char>>, b: bool)
    requires
        forall|i: int| 0 <= i < rest.len() ==> !(#[trigger] rest[i]).contains('\n'),
        forall|i: int| 0 <= i < pending.len() ==> !(#[trigger] pending[i]).contains('\n'),
    ensures
        forall|k: int, i: int|
            #![trigger blank::parse_spec(rest, pending, b)[k].lines[i]]
            0 <= k < blank::parse_spec(rest, pending, b).len() && 0 <= i < blank::parse_spec(
                rest,
                pending,
                b,
            )[k].lines.len() ==> !blank::parse_spec(rest, pending, b)[k].lines[i].contains('\n'),
    decreases rest.len(),
{
    let bs = blank::parse_spec(rest, pending, b);
    if rest.len() > 0 {
        let line = rest[0];
        let tail = rest.skip(1);
        assert forall|i: int| 0 <= i < tail.len() implies !(#[trigger] tail[i]).contains('\n') by {
            assert(tail[i] == rest[i + 1]);
        }
        if lex::is_blank_spec(line) {
            let more = blank::parse_spec(tail, Seq::empty(), true);
            lemma_normal_lines(tail, Seq::empty(), true);
            let c = blank::comments_spec(pending, b);
            assert forall|k: int, i: int|
                #![trigger bs[k].lines[i]]
                0 <= k < bs.len() && 0 <= i < bs[k].lines.len() implies !bs[k].lines[i].contains(
                '\n',
            ) by {
                if k >= c.len() {
                    assert(bs[k] == more[k - c.len()]);
                    assert(!more[k - c.len()].lines[i].contains('\n'));
                } else {
                    assert(bs[k].lines[i] == pending[i]);
                }
            }
        } else if lex::is_comment_spec(line) {
            let p = pending.push(line);
            assert forall|i: int| 0 <= i < p.len() implies !(#[trigger] p[i]).contains('\n') by {
                if i < pending.len() {
                    assert(p[i] == pending[i]);
                }
            }
            lemma_normal_lines(tail, p, b);
            assert(bs == blank::parse_spec(tail, p, b));
        } else {
            blank::lemma_body_len(line, tail);
            let n = blank::body_len_spec(line, tail);
            let after = tail.skip(n);
            assert forall|i: int| 0 <= i < after.len() implies !(#[trigger] after[i]).contains(
                '\n',
            ) by {
                assert(after[i] == tail[n + i]);
            }
            lemma_normal_lines(after, Seq::empty(), false);
            let more = blank::parse_spec(after, Seq::empty(), false);
            let ls = pending.push(line) + tail.take(n);
            assert forall|k: int, i: int|
                #![trigger bs[k].lines[i]]
                0 <= k < bs.len() && 0 <= i < bs[k].lines.len() implies !bs[k].lines[i].contains(
                '\n',
            ) by {
                if k == 0 {
                    assert(bs[0].lines == ls);
                    if i < pending.len() {
                        assert(ls[i] == pending[i]);
                    } else if i > pending.len() {
                        assert(ls[i] == tail[i - pending.len() - 1]);
                    }
                } else {
                    assert(bs[k] == more[k - 1]);
                    assert(!more[k - 1].lines[i].contains('\n'));
                }
            }
        }
    } else {
        assert forall|k: int, i: int|
            #![trigger bs[k].lines[i]]
            0 <= k < bs.len() && 0 <= i < bs[k].lines.len() implies !bs[k].lines[i].contains(
            '\n',
        ) by {
            assert(bs[k].lines[i] == pending[i]);
        }
    }
}

proof fn lemma_join_lines(bs: Seq<blank::Block>)
    requires
        forall|k: int, i: int|
            #![trigger bs[k].lines[i]]
            0 <= k < bs.len() && 0 <= i < bs[k].lines.len() ==> !bs[k].lines[i].contains('\n'),
    ensures
        forall|i: int|
            0 <= i < blank::join_blocks_spec(bs).len() ==> !(
            #[trigger] blank::join_blocks_spec(bs)[i]).contains('\n'),
    decreases bs.len(),
{
    let ls = blank::join_blocks_spec(bs);
    if bs.len() == 1 {
        assert forall|i: int| 0 <= i < ls.len() implies !(#[trigger] ls[i]).contains('\n') by {
            assert(ls[i] == bs[0].lines[i]);
        }
    } else if bs.len() > 1 {
        let front = bs.drop_last();
        assert forall|k: int, i: int|
            #![trigger front[k].lines[i]]
            0 <= k < front.len() && 0 <= i < front[k].lines.len() implies !front[k].lines[i].contains(
            '\n',
        ) by {
            assert(front[k] == bs[k]);
            assert(!bs[k].lines[i].contains('\n'));
        }
        lemma_join_lines(front);
        let a = blank::join_blocks_spec(front);
        let g = blank::gap_spec(bs[bs.len() - 2], bs.last());
        let z = bs.last().lines;
        assert(ls == a + g + z);
        assert forall|i: int| 0 <= i < ls.len() implies !(#[trigger] ls[i]).contains('\n') by {
            if i < a.len() {
                assert(ls[i] == a[i]);
            } else if i < a.len() + g.len() {
                assert(ls[i] == g[i - a.len()]);
                assert(g[i - a.len()] == Seq::<char>::empty());
            } else {
                assert(ls[i] == bs[bs.len() - 1].lines[i - a.len() - g.len()]);
            }
        }
    }
}

/// No line that normalizing leaves of a text holds a newline.
pub proof fn lemma_normal_without(src: Seq<Seq<char>>)
    requires
        forall|i: int| 0 <= i < src.len() ==> !(#[trigger] src[i]).contains('\n'),
    ensures
        forall|i: int|
            0 <= i < blank::normalize_spec(src).len() ==> !(
            #[trigger] blank::normalize_spec(src)[i]).contains('\n'),
{
    lemma_normal_lines(src, Seq::empty(), false);
    lemma_join_lines(blank::parse_spec(src, Seq::empty(), false));
}

/// Formatting settles where restyling does: a formatted text is formatted to
/// itself.
pub proof fn lemma_formatting_settles(s: Seq<char>, ctx: Ctx)
    requires
        settle::clean(ctx),
        settles(
            blank::normalize_spec(fmt::lines_spec(s)),
            ctx,
            Options { sort: false, explicit: false },
        ),
    ensures
        ({
            let opts = Options { sort: false, explicit: false };
            let out = fmt::format_spec(s, ctx, opts);
            fmt::format_spec(out, ctx, opts) == out
        }),
{
    let opts = Options { sort: false, explicit: false };
    let src = fmt::lines_spec(s);
    tokens::lemma_lines_hold_no_newline(s);
    lemma_normal_without(src);
    lemma_reflowed(src, ctx, opts);
}

/// What formatting writes ends in a newline, and nothing is written for
/// nothing.
pub proof fn output_ends_in_a_newline(s: Seq<char>, ctx: Ctx, opts: Options)
    ensures
        fmt::format_spec(s, ctx, opts).len() > 0 ==> fmt::format_spec(s, ctx, opts).last()
            == '\n',
        s.len() == 0 ==> fmt::format_spec(s, ctx, opts).len() == 0,
{
    let ls = fmt::lines_spec(s);
    let sorted = if opts.sort {
        fmt::sort::sort_entries_spec(ls)
    } else {
        ls
    };
    let ws = fmt::format_lines_spec(blank::normalize_spec(sorted), ctx, opts);
    if s.len() == 0 {
        let none = Seq::<Seq<char>>::empty();
        assert(ls =~= none);
        assert(fmt::sort::sort_entries_spec(none) =~= none);
        assert(blank::parse_spec(none, none, false) =~= Seq::empty());
        assert(blank::normalize_spec(none) =~= none);
        assert(ws =~= none);
    }
}

} // verus!
