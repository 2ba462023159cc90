//! Why a formatted file is only appended to.

use vstd::prelude::*;
use crate::add::integrate::{self, Outcome, Placement, Scopes};
use crate::add::replay;
use crate::add::scope::Rewrites;
use crate::add::write::{Insertion, NewPost, NewTxn, WriteOptions};
use crate::amount::Ctx;
use crate::fmt::{self, Classify, Scan};
use crate::fmt::blank::{self, Block};
use crate::fmt::columns::{self, plainly};
use crate::fmt::explicit::Line;
use crate::fmt::laws;
use crate::fmt::reread;
use crate::fmt::scanned;
use crate::fmt::tree;
use crate::lex;
use crate::text::{self, CharClass};
use crate::tokens;

verus! {

// ---- blocks ----

/// Whether blocks are the first of others, the last of them possibly cut short.
pub open spec fn grows(a: Seq<Block>, b: Seq<Block>) -> bool {
    &&& a.len() <= b.len()
    &&& forall|i: int| 0 <= i < a.len() - 1 ==> #[trigger] a[i] == b[i]
    &&& a.len() > 0 ==> {
        let k = a.len() - 1;
        &&& a[k].txn == b[k].txn
        &&& a[k].blank_before == b[k].blank_before
        &&& a[k].lines.is_prefix_of(b[k].lines)
    }
}

proof fn lemma_grows_behind(c: Seq<Block>, a: Seq<Block>, b: Seq<Block>)
    requires
        grows(a, b),
    ensures
        grows(c + a, c + b),
{
    let x = c + a;
    let y = c + b;
    assert forall|i: int| 0 <= i < x.len() - 1 implies #[trigger] x[i] == y[i] by {
        if i >= c.len() {
            assert(a[i - c.len()] == b[i - c.len()]);
        }
    }
    if x.len() > 0 {
        let k = x.len() - 1;
        if a.len() == 0 {
            assert(x[k] == y[k]);
        } else {
            assert(x[k] == a[a.len() - 1]);
            assert(y[k] == b[a.len() - 1]);
        }
    }
}

proof fn lemma_join_front(bs: Seq<Block>, n: int)
    requires
        0 <= n <= bs.len(),
    ensures
        blank::join_blocks_spec(bs.take(n)).is_prefix_of(blank::join_blocks_spec(bs)),
    decreases bs.len(),
{
    let j = blank::join_blocks_spec(bs);
    if n == bs.len() {
        assert(bs.take(n) =~= bs);
        assert(j.take(j.len() as int) =~= j);
    } else if n == 0 {
        assert(blank::join_blocks_spec(bs.take(n)) =~= j.take(0));
    } else {
        let f = bs.drop_last();
        lemma_join_front(f, n);
        assert(f.take(n) =~= bs.take(n));
        let i = blank::join_blocks_spec(f);
        let h = blank::join_blocks_spec(bs.take(n));
        assert(h =~= i.take(h.len() as int));
        assert(h =~= j.take(h.len() as int));
    }
}

/// The lines of blocks come first where the blocks do.
proof fn lemma_join_grows(a: Seq<Block>, b: Seq<Block>)
    requires
        grows(a, b),
    ensures
        blank::join_blocks_spec(a).is_prefix_of(blank::join_blocks_spec(b)),
{
    let n = a.len() as int;
    let c = b.take(n);
    let x = blank::join_blocks_spec(a);
    let y = blank::join_blocks_spec(c);
    let z = blank::join_blocks_spec(b);
    lemma_join_front(b, n);
    if n == 0 {
        assert(x =~= z.take(0));
    } else {
        assert(a.drop_last() =~= c.drop_last()) by {
            assert forall|i: int| 0 <= i < n - 1 implies a.drop_last()[i] == c.drop_last()[i] by {
                assert(a[i] == b[i]);
            }
        }
        let p = a[n - 1].lines;
        let q = c[n - 1].lines;
        assert(p =~= q.take(p.len() as int));
        if n > 1 {
            assert(a[n - 2] == b[n - 2]);
        }
        assert(x =~= y.take(x.len() as int));
        assert(x =~= z.take(x.len() as int));
    }
}

proof fn lemma_indented_grows(a: Seq<Seq<char>>, e: Seq<Seq<char>>)
    ensures
        blank::indented_len_spec(a + e) >= blank::indented_len_spec(a),
        blank::indented_len_spec(a) < a.len() ==> blank::indented_len_spec(a + e)
            == blank::indented_len_spec(a),
    decreases a.len(),
{
    if a.len() == 0 {
        blank::lemma_indented_len(a + e);
    } else {
        assert((a + e)[0] == a[0]);
        assert((a + e).skip(1) =~= a.skip(1) + e);
        lemma_indented_grows(a.skip(1), e);
    }
}

proof fn lemma_block_grows(a: Seq<Seq<char>>, e: Seq<Seq<char>>)
    ensures
        lex::block_len_spec(a + e) >= lex::block_len_spec(a),
        lex::block_len_spec(a) < a.len() ==> lex::block_len_spec(a + e) == lex::block_len_spec(a),
    decreases a.len(),
{
    if a.len() == 0 {
        blank::lemma_block_len(a + e);
    } else {
        assert((a + e)[0] == a[0]);
        assert((a + e).skip(1) =~= a.skip(1) + e);
        lemma_block_grows(a.skip(1), e);
    }
}

/// Whether comment lines at the end of lines, or pending before them, stay
/// alone when others follow.
pub open spec fn apart(ls: Seq<Seq<char>>, pending: Seq<Seq<char>>, e: Seq<Seq<char>>) -> bool {
    ||| e.len() == 0
    ||| lex::is_blank_spec(e[0])
    ||| if ls.len() > 0 {
        lex::is_blank_spec(ls.last())
    } else {
        pending.len() == 0
    }
}

/// Lines that follow leave the blocks before them alone.
proof fn lemma_parse_grows(
    ls: Seq<Seq<char>>,
    e: Seq<Seq<char>>,
    pending: Seq<Seq<char>>,
    b: bool,
)
    requires
        apart(ls, pending, e),
    ensures
        grows(blank::parse_spec(ls, pending, b), blank::parse_spec(ls + e, pending, b)),
    decreases ls.len(),
{
    let none = Seq::<Seq<char>>::empty();
    let x = blank::parse_spec(ls, pending, b);
    let y = blank::parse_spec(ls + e, pending, b);
    let alone = blank::comments_spec(pending, b);
    if ls.len() == 0 {
        assert(ls + e =~= e);
        if e.len() > 0 && pending.len() > 0 {
            let more = blank::parse_spec(e.skip(1), none, true);
            assert(y == alone + more);
            assert(grows(Seq::<Block>::empty(), more));
            lemma_grows_behind(alone, Seq::empty(), more);
            assert(alone + Seq::<Block>::empty() =~= x);
        }
    } else {
        let line = ls[0];
        let tail = ls.skip(1);
        assert((ls + e)[0] == line);
        assert((ls + e).skip(1) =~= tail + e);
        if tail.len() > 0 {
            assert(tail.last() == ls.last());
        }
        if lex::is_blank_spec(line) {
            lemma_parse_grows(tail, e, none, true);
            lemma_grows_behind(
                alone,
                blank::parse_spec(tail, none, true),
                blank::parse_spec(tail + e, none, true),
            );
        } else if lex::is_comment_spec(line) {
            lemma_parse_grows(tail, e, pending.push(line), b);
        } else {
            blank::lemma_body_len(line, tail);
            blank::lemma_body_len(line, tail + e);
            lemma_indented_grows(tail, e);
            lemma_block_grows(tail, e);
            let n = blank::body_len_spec(line, tail);
            let m = blank::body_len_spec(line, tail + e);
            let txn = lex::opens_txn_spec(line);
            let one = Block { txn, lines: pending.push(line) + tail.take(n), blank_before: b };
            let two = Block {
                txn,
                lines: pending.push(line) + (tail + e).take(m),
                blank_before: b,
            };
            let p = blank::parse_spec(tail.skip(n), none, false);
            let q = blank::parse_spec((tail + e).skip(m), none, false);
            assert(x == seq![one] + p);
            assert(y == seq![two] + q);
            if n < tail.len() {
                assert(tail.take(n) =~= (tail + e).take(m));
                assert((tail + e).skip(m) =~= tail.skip(n) + e);
                assert(tail.skip(n).last() == ls.last());
                lemma_parse_grows(tail.skip(n), e, none, false);
                lemma_grows_behind(seq![one], p, q);
            } else {
                assert(tail.skip(n) =~= none);
                assert(p =~= Seq::empty());
                assert(one.lines =~= two.lines.take(one.lines.len() as int));
            }
        }
    }
}

/// Lines that follow, set apart, leave the layout of those before them alone.
proof fn lemma_normal_grows(ls: Seq<Seq<char>>, e: Seq<Seq<char>>)
    requires
        apart(ls, Seq::empty(), e),
    ensures
        blank::normalize_spec(ls).is_prefix_of(blank::normalize_spec(ls + e)),
{
    let none = Seq::<Seq<char>>::empty();
    lemma_parse_grows(ls, e, none, false);
    lemma_join_grows(
        blank::parse_spec(ls, none, false),
        blank::parse_spec(ls + e, none, false),
    );
}

// ---- layout ----

/// The classes of lines, their amounts as they are written.
#[verifier::opaque]
pub open spec fn classes(ls: Seq<Seq<char>>, stages: Seq<Ctx>) -> Seq<Line> {
    fmt::styled_stages_spec(ls, stages, columns::plainly())
}

/// One line more has one class more.
proof fn lemma_one_class(ls: Seq<Seq<char>>, stages: Seq<Ctx>)
    requires
        ls.len() > 0,
    ensures
        classes(ls, stages).len() == classes(ls.drop_last(), stages).len() + 1,
        classes(ls, stages).drop_last() == classes(ls.drop_last(), stages),
{
    reveal(classes);
    let c = Classify::over_stages(ls, stages, columns::plainly());
    let d = Classify::over_stages(ls.drop_last(), stages, columns::plainly());
    assert(c.out.drop_last() =~= d.out);
}

proof fn lemma_class_each(ls: Seq<Seq<char>>, stages: Seq<Ctx>)
    ensures
        classes(ls, stages).len() == ls.len(),
    decreases ls.len(),
{
    if ls.len() > 0 {
        lemma_class_each(ls.drop_last(), stages);
        lemma_one_class(ls, stages);
    } else {
        reveal(classes);
    }
}

/// Lines that follow leave the classes of those before them alone.
proof fn lemma_styled_front(ls: Seq<Seq<char>>, n: int, stages: Seq<Ctx>)
    requires
        0 <= n <= ls.len(),
    ensures
        classes(ls, stages).take(n) == classes(ls.take(n), stages),
    decreases ls.len(),
{
    lemma_class_each(ls, stages);
    let y = classes(ls, stages);
    if n == ls.len() {
        assert(ls.take(n) =~= ls);
        assert(y.take(n) =~= y);
    } else {
        let f = ls.drop_last();
        lemma_styled_front(f, n, stages);
        lemma_one_class(ls, stages);
        assert(f.take(n) =~= ls.take(n));
        assert(y.take(n) =~= y.drop_last().take(n));
    }
}

proof fn lemma_upto_front(
    acc_w: nat,
    num_w: nat,
    a: Seq<Seq<char>>,
    x: Seq<Line>,
    b: Seq<Seq<char>>,
    y: Seq<Line>,
    n: int,
)
    requires
        0 <= n <= a.len() <= b.len(),
        a.len() == x.len(),
        b.len() == y.len(),
        b.take(a.len() as int) == a,
        y.take(a.len() as int) == x,
    ensures
        fmt::format_upto_spec(acc_w, num_w, a, x, n) == fmt::format_upto_spec(
            acc_w,
            num_w,
            b,
            y,
            n,
        ),
    decreases n,
{
    if n > 0 {
        lemma_upto_front(acc_w, num_w, a, x, b, y, n - 1);
        assert(b.take(a.len() as int)[n - 1] == b[n - 1]);
        assert(y.take(a.len() as int)[n - 1] == y[n - 1]);
    }
}

proof fn lemma_upto_text(
    acc_w: nat,
    num_w: nat,
    ls: Seq<Seq<char>>,
    styled: Seq<Line>,
    m: int,
    n: int,
)
    requires
        0 <= m <= n,
    ensures
        fmt::unlines_spec(fmt::format_upto_spec(acc_w, num_w, ls, styled, m)).is_prefix_of(
            fmt::unlines_spec(fmt::format_upto_spec(acc_w, num_w, ls, styled, n)),
        ),
    decreases n,
{
    let x = fmt::unlines_spec(fmt::format_upto_spec(acc_w, num_w, ls, styled, m));
    let z = fmt::unlines_spec(fmt::format_upto_spec(acc_w, num_w, ls, styled, n));
    if m == n {
        assert(x =~= z.take(x.len() as int));
    } else {
        lemma_upto_text(acc_w, num_w, ls, styled, m, n - 1);
        let before = fmt::format_upto_spec(acc_w, num_w, ls, styled, n - 1);
        let y = fmt::unlines_spec(before);
        let one = fmt::format_line_spec(acc_w, num_w, ls[n - 1], styled[n - 1]);
        replay::lemma_unlines_concat(before, one);
        assert(x =~= y.take(x.len() as int));
        assert(x =~= z.take(x.len() as int));
    }
}

/// Classified lines as they are written.
#[verifier::opaque]
pub open spec fn laid(ls: Seq<Seq<char>>, styled: Seq<Line>) -> Seq<char> {
    fmt::unlines_spec(fmt::reflowed_spec(ls, styled))
}

/// The widths that classified lines ask for.
#[verifier::opaque]
pub open spec fn asked(styled: Seq<Line>) -> (nat, nat) {
    let ps = fmt::all_posts(styled);
    (fmt::account_width(ps), fmt::number_width(ps))
}

/// The first lines are laid out alone as they are among the others, in columns
/// of the same width.
proof fn lemma_reflowed_front(
    a: Seq<Seq<char>>,
    x: Seq<Line>,
    b: Seq<Seq<char>>,
    y: Seq<Line>,
)
    requires
        a.len() <= b.len(),
        a.len() == x.len(),
        b.len() == y.len(),
        b.take(a.len() as int) == a,
        y.take(a.len() as int) == x,
        asked(x) == asked(y),
    ensures
        laid(a, x).is_prefix_of(laid(b, y)),
{
    reveal(laid);
    reveal(asked);
    let w = fmt::account_width(fmt::all_posts(x));
    let v = fmt::number_width(fmt::all_posts(x));
    lemma_upto_front(w, v, a, x, b, y, a.len() as int);
    lemma_upto_text(w, v, b, y, a.len() as int, b.len() as int);
}

proof fn lemma_laid_out(b: Seq<Seq<char>>, n: int, stages: Seq<Ctx>)
    requires
        0 <= n <= b.len(),
        asked(classes(b.take(n), stages)) == asked(classes(b, stages)),
    ensures
        laid(b.take(n), classes(b.take(n), stages)).is_prefix_of(laid(b, classes(b, stages))),
{
    let a = b.take(n);
    lemma_styled_front(b, n, stages);
    lemma_class_each(a, stages);
    lemma_class_each(b, stages);
    lemma_reflowed_front(a, classes(a, stages), b, classes(b, stages));
}

/// How the columns and the layout of a text come about.
proof fn lemma_at(s: Seq<char>, inherited: Seq<(usize, Ctx)>)
    ensures
        ({
            let ls = fmt::lines_spec(s);
            let a = blank::normalize_spec(ls);
            let stages = tree::stages_spec(fmt::scan_ctx_spec(ls), inherited);
            &&& tree::format_at_spec(s, inherited, columns::plainly()) == laid(a, classes(a, stages))
            &&& tree::widths_at_spec(ls, inherited) == asked(classes(a, stages))
        }),
{
    let ls = fmt::lines_spec(s);
    reveal(laid);
    reveal(asked);
    reveal(classes);
    scanned::normalizing_keeps_the_styles(ls);
    columns::normalizing_keeps_the_widths(ls, inherited);
}

/// A text is laid out as before in front of lines that follow it, as long as
/// they are set apart, ask for no wider columns and declare no styles.
proof fn lemma_format_grows(
    s: Seq<char>,
    t: Seq<char>,
    e: Seq<Seq<char>>,
    inherited: Seq<(usize, Ctx)>,
)
    requires
        fmt::lines_spec(t) == fmt::lines_spec(s) + e,
        apart(fmt::lines_spec(s), Seq::empty(), e),
        fmt::scan_ctx_spec(fmt::lines_spec(t)) == fmt::scan_ctx_spec(fmt::lines_spec(s)),
        tree::widths_at_spec(fmt::lines_spec(t), inherited) == tree::widths_at_spec(
            fmt::lines_spec(s),
            inherited,
        ),
    ensures
        tree::format_at_spec(s, inherited, columns::plainly()).is_prefix_of(
            tree::format_at_spec(t, inherited, columns::plainly()),
        ),
{
    let ls = fmt::lines_spec(s);
    lemma_at(s, inherited);
    lemma_at(t, inherited);
    lemma_normal_grows(ls, e);
    let a = blank::normalize_spec(ls);
    let b = blank::normalize_spec(ls + e);
    assert(b.take(a.len() as int) == a);
    lemma_laid_out(
        b,
        a.len() as int,
        tree::stages_spec(fmt::scan_ctx_spec(ls), inherited),
    );
}

// ---- lines ----

/// A line and the text of others are the line and the others.
proof fn lemma_line_front(l: Seq<char>, ls: Seq<Seq<char>>)
    requires
        !l.contains('\n'),
    ensures
        fmt::lines_spec(l.push('\n') + fmt::unlines_spec(ls)) == seq![l] + fmt::lines_spec(
            fmt::unlines_spec(ls),
        ),
{
    let t = fmt::unlines_spec(ls);
    let s = l.push('\n') + t;
    tokens::lemma_split_line(l, t);
    let p = text::split_spec(t, CharClass::Is('\n'));
    let q = text::split_spec(s, CharClass::Is('\n'));
    if ls.len() == 0 {
        assert(t =~= Seq::empty());
        assert(s.last() == '\n');
        assert(p =~= seq![t]);
        assert(q.drop_last() =~= seq![l]);
        assert(seq![l] + fmt::lines_spec(t) =~= seq![l]);
    } else {
        assert(t.last() == '\n');
        assert(s.last() == '\n');
        assert(p.len() > 0);
        assert(q.drop_last() =~= seq![l] + p.drop_last());
    }
}

/// Lines of a file come back from its text whatever follows them.
proof fn lemma_lines_front(ls: Seq<Seq<char>>, e: Seq<Seq<char>>)
    requires
        forall|i: int| 0 <= i < ls.len() ==> !(#[trigger] ls[i]).contains('\n'),
    ensures
        fmt::lines_spec(fmt::unlines_spec(ls + e)) == ls + fmt::lines_spec(fmt::unlines_spec(e)),
    decreases ls.len(),
{
    if ls.len() == 0 {
        assert(ls + e =~= e);
        assert(ls + fmt::lines_spec(fmt::unlines_spec(e)) =~= fmt::lines_spec(
            fmt::unlines_spec(e),
        ));
    } else {
        let all = ls + e;
        let more = ls.skip(1);
        assert forall|i: int| 0 <= i < more.len() implies !(#[trigger] more[i]).contains('\n') by {
            assert(more[i] == ls[i + 1]);
        }
        lemma_lines_front(more, e);
        tokens::lemma_unlines_front(all);
        assert(all.skip(1) =~= more + e);
        assert(!ls[0].contains('\n'));
        assert(all[0] == ls[0]);
        lemma_line_front(ls[0], more + e);
        assert(ls + fmt::lines_spec(fmt::unlines_spec(e)) =~= seq![ls[0]] + (more
            + fmt::lines_spec(fmt::unlines_spec(e))));
    }
}

/// However often a line is broken, a text has no fewer lines than it was made of.
proof fn lemma_split_grows(a: Seq<char>, b: Seq<char>)
    ensures
        text::split_spec(a.push('\n') + b, CharClass::Is('\n')).len() > text::split_spec(
            b,
            CharClass::Is('\n'),
        ).len(),
    decreases a.len(),
{
    let class = CharClass::Is('\n');
    let s = a.push('\n') + b;
    let n = text::run_spec(s, class, false);
    text::lemma_run(s, class, false);
    assert(s[a.len() as int] == '\n');
    assert(n <= a.len());
    if n == a.len() {
        assert(s.skip(n + 1) =~= b);
    } else {
        let c = a.skip(n + 1);
        assert(s.skip(n + 1) =~= c.push('\n') + b);
        lemma_split_grows(c, b);
    }
}

proof fn lemma_no_fewer(ls: Seq<Seq<char>>)
    ensures
        text::split_spec(fmt::unlines_spec(ls), CharClass::Is('\n')).len() > ls.len(),
        fmt::lines_spec(fmt::unlines_spec(ls)).len() >= ls.len(),
    decreases ls.len(),
{
    if ls.len() > 0 {
        lemma_no_fewer(ls.skip(1));
        tokens::lemma_unlines_front(ls);
        lemma_split_grows(ls[0], fmt::unlines_spec(ls.skip(1)));
    }
}

// ---- placing at the end ----

/// The text of a file with new transactions in it, before it is formatted.
pub open spec fn joined_spec(
    src: Seq<char>,
    txns: Seq<NewTxn>,
    insertion: Insertion,
    scopes: Scopes,
    this_year: i32,
) -> Seq<char> {
    let ls = fmt::lines_spec(src);
    let p = Placement::over(ls, txns, insertion, scopes, this_year);
    fmt::unlines_spec(integrate::spliced(ls, integrate::raw_blocks(p.placed)))
}

/// Whether no line of what is placed is broken in two.
pub open spec fn unbroken(p: Placement) -> bool {
    forall|m: int, i: int|
        0 <= m < p.placed.len() && 0 <= i < p.placed[m].raw.len() ==> !(
        #[trigger] p.placed[m].raw[i]).contains('\n')
}

/// Whether a line starts as one of a transaction does: with white space, or as
/// a date.
pub open spec fn quiet(l: Seq<char>) -> bool {
    l.len() == 0 || text::is_white(l[0]) || text::is_digit(l[0]) || l[0] == '-' || l[0] == '+'
}

/// Whether lines can stand behind others: each starts as one of a transaction
/// does, the first of them not with white space, and none is broken.
pub open spec fn all_quiet(e: Seq<Seq<char>>) -> bool {
    &&& forall|i: int| 0 <= i < e.len() ==> quiet(#[trigger] e[i]) && !e[i].contains('\n')
    &&& e.len() > 0 ==> e[0].len() == 0 || !text::is_white(e[0][0])
}

proof fn lemma_header_starts(t: NewTxn)
    ensures
        t.header().len() > 0,
        quiet(t.header()),
        !text::is_white(t.header()[0]),
{
    let d = t.date.text();
    let y = t.date.year;
    if 0 <= y {
        replay::lemma_padded(y as nat, 4);
    } else {
        replay::lemma_padded((-y) as nat, 4);
    }
    let w = crate::date::year_text(y);
    assert(w.len() > 0);
    if 0 <= y <= 9999 {
        assert(text::is_digit(w[0]));
    }
    assert(d[0] == w[0]);
    let s = d + " "@ + t.description;
    assert(s[0] == d[0]);
    assert(!text::is_white(s[0]));
    reread::lemma_rstrip(s);
    let r = lex::rstrip_spec(s);
    assert(!lex::is_blank_spec(s)) by {
        if lex::is_blank_spec(s) {
            assert(text::is_white(s[0]));
        }
    }
    assert(r.len() > 0 && r[0] == s[0]);
    assert(t.header()[0] == r[0]);
}

proof fn lemma_posts_start(ps: Seq<NewPost>, scope: Rewrites)
    ensures
        forall|i: int|
            0 <= i < crate::add::write::post_lines(ps, scope).len() ==> quiet(
                #[trigger] crate::add::write::post_lines(ps, scope)[i],
            ),
    decreases ps.len(),
{
    reveal_strlit("    ");
    if ps.len() > 0 {
        lemma_posts_start(ps.drop_last(), scope);
        if let Some(spelled) = scope.spell(ps.last().account) {
            let l = crate::add::write::post_line(spelled, ps.last());
            assert(l[0] == ' ');
            let before = crate::add::write::post_lines(ps.drop_last(), scope);
            let now = crate::add::write::post_lines(ps, scope);
            assert(now == before.push(l));
            assert forall|i: int| 0 <= i < now.len() implies quiet(#[trigger] now[i]) by {
                if i < before.len() {
                    assert(now[i] == before[i]);
                }
            }
        }
    }
}

/// Whether placed transactions stand behind the lines of a file, set apart from
/// them.
#[verifier::opaque]
pub open spec fn behind(ls: Seq<Seq<char>>, p: Placement) -> bool {
    let e = p.lines.skip(ls.len() as int);
    &&& integrate::spliced(ls, integrate::raw_blocks(p.placed)) == p.lines
    &&& p.lines.len() >= ls.len()
    &&& p.lines == ls + e
    &&& e.len() == 0 || ls.len() == 0 || lex::is_blank_spec(ls.last()) || e[0].len() == 0
    &&& unbroken(p) ==> all_quiet(e)
}

/// The blank line that sets new lines apart, if it takes one.
pub open spec fn lead_spec(ls: Seq<Seq<char>>) -> Seq<Seq<char>> {
    if ls.len() > 0 && !lex::is_blank_spec(ls.last()) {
        seq![Seq::<char>::empty()]
    } else {
        Seq::empty()
    }
}

/// One transaction more.
proof fn lemma_one_behind(
    ls: Seq<Seq<char>>,
    q: Placement,
    p: Placement,
    new: integrate::Place,
    t: NewTxn,
    scope: Rewrites,
)
    requires
        behind(ls, q),
        t.raw_lines(scope) == Ok::<Seq<Seq<char>>, Seq<Seq<char>>>(new.raw),
        new.at >= q.lines.len(),
        p.lines == integrate::splice_spec(q.lines, new.at, new.raw),
        p.placed == q.placed.push(new),
    ensures
        behind(ls, p),
{
    reveal(behind);
    let raw = new.raw;
    let lead = lead_spec(q.lines);
    let e = p.lines.skip(ls.len() as int);
    let f = q.lines.skip(ls.len() as int);
    assert(p.lines =~= q.lines + lead + raw);
    assert(e =~= f + lead + raw);
    assert(p.lines =~= ls + e);
    assert(raw[0] == t.header());
    assert(integrate::raw_blocks(p.placed).drop_last() =~= integrate::raw_blocks(q.placed));
    assert(integrate::raw_blocks(p.placed).last() == (new.at, raw));
    if f.len() == 0 {
        assert(q.lines =~= ls);
    } else {
        assert(e[0] == f[0]);
    }
    if unbroken(p) {
        lemma_quiet_on(p, q, new, f, lead, raw, t, scope);
    }
}

/// New transactions go behind the lines of the file.
proof fn lemma_placed_behind(
    ls: Seq<Seq<char>>,
    txns: Seq<NewTxn>,
    scopes: Scopes,
    this_year: i32,
)
    ensures
        behind(ls, Placement::over(ls, txns, Insertion::Append, scopes, this_year)),
    decreases txns.len(),
{
    let p = Placement::over(ls, txns, Insertion::Append, scopes, this_year);
    if txns.len() == 0 {
        reveal(behind);
        let e = p.lines.skip(ls.len() as int);
        assert(integrate::raw_blocks(p.placed) =~= Seq::empty());
        assert(p.lines =~= ls + e);
    } else {
        let q = Placement::over(ls, txns.drop_last(), Insertion::Append, scopes, this_year);
        let t = txns.last();
        lemma_placed_behind(ls, txns.drop_last(), scopes, this_year);
        lemma_no_fewer(q.lines);
        let at = fmt::lines_spec(fmt::unlines_spec(q.lines)).len() as int;
        let scope = scopes.at(integrate::next_original(q.origins, at));
        match t.raw_lines(scope) {
            Ok(raw) => {
                let new = integrate::Place { at, raw, warning: integrate::scope_note(scope) };
                lemma_one_behind(ls, q, p, new, t, scope);
            },
            Err(_) => {
                assert(p.lines == q.lines && p.placed == q.placed);
                reveal(behind);
            },
        }
    }
}

proof fn lemma_quiet_on(
    p: Placement,
    q: Placement,
    new: integrate::Place,
    f: Seq<Seq<char>>,
    lead: Seq<Seq<char>>,
    raw: Seq<Seq<char>>,
    t: NewTxn,
    scope: Rewrites,
)
    requires
        unbroken(p),
        p.placed == q.placed.push(new),
        new.raw == raw,
        t.raw_lines(scope) == Ok::<Seq<Seq<char>>, Seq<Seq<char>>>(raw),
        unbroken(q) ==> all_quiet(f),
        lead == Seq::<Seq<char>>::empty() || lead == seq![Seq::<char>::empty()],
    ensures
        all_quiet(f + lead + raw),
{
    let e = f + lead + raw;
    assert(unbroken(q)) by {
        assert forall|m: int, i: int|
            0 <= m < q.placed.len() && 0 <= i < q.placed[m].raw.len() implies !(
        #[trigger] q.placed[m].raw[i]).contains('\n') by {
            assert(p.placed[m].raw[i] == q.placed[m].raw[i]);
        }
    }
    lemma_header_starts(t);
    lemma_posts_start(t.postings, scope);
    assert forall|i: int| 0 <= i < e.len() implies quiet(#[trigger] e[i]) && !e[i].contains(
        '\n',
    ) by {
        if i < f.len() {
            assert(e[i] == f[i]);
        } else if i < f.len() + lead.len() {
            assert(e[i] == lead[i - f.len()]);
        } else {
            let k = i - f.len() - lead.len();
            assert(e[i] == raw[k]);
            assert(p.placed[q.placed.len() as int].raw[k] == raw[k]);
            if k > 0 {
                assert(raw[k] == crate::add::write::post_lines(t.postings, scope)[k - 1]);
            }
        }
    }
    if f.len() > 0 {
        assert(e[0] == f[0]);
    } else if lead.len() > 0 {
        assert(e[0] == lead[0]);
    } else {
        assert(e[0] == raw[0]);
    }
}

// ---- styles ----

/// A line of a transaction declares nothing.
proof fn lemma_quiet_step(st: Scan, l: Seq<char>)
    requires
        quiet(l),
        st.opaque || st.block is None || l.len() == 0 || !text::is_white(l[0]),
    ensures
        st.opaque ==> st.step(l) == st,
        !st.opaque ==> st.step(l) == (Scan { block: None, ..st }),
{
    reveal_strlit("comment");
    reveal_strlit("end comment");
    reveal_strlit("commodity");
    reveal_strlit("D");
    reread::lemma_rstrip(l);
    let r = lex::rstrip_spec(l);
    if r.len() > 0 {
        assert(r[0] == l[0]);
    }
    if lex::is_blank_spec(l) {
        if !st.opaque {
            scanned::lemma_blank_step(st, l);
        }
    } else {
        laws::lemma_no_directive(l, "commodity"@);
        laws::lemma_no_directive(l, "D"@);
    }
}

proof fn lemma_quiet_scan(st: Scan, e: Seq<Seq<char>>)
    requires
        all_quiet(e),
    ensures
        scanned::agrees(scanned::scan_on(st, e), st),
        scanned::scan_on(st, e).opaque == st.opaque,
        e.len() > 0 && !st.opaque ==> scanned::scan_on(st, e).block is None,
    decreases e.len(),
{
    if e.len() > 0 {
        let f = e.drop_last();
        assert forall|i: int| 0 <= i < f.len() implies quiet(#[trigger] f[i]) && !f[i].contains(
            '\n',
        ) by {
            assert(f[i] == e[i]);
        }
        if f.len() > 0 {
            assert(f[0] == e[0]);
        }
        lemma_quiet_scan(st, f);
        assert(quiet(e[e.len() - 1]));
        lemma_quiet_step(scanned::scan_on(st, f), e.last());
    }
}

// ---- the laws ----

/// Transactions that are put behind a file declare no styles, as long as none
/// of their lines is broken in two.
pub proof fn new_transactions_declare_no_styles(
    src: Seq<char>,
    txns: Seq<NewTxn>,
    scopes: Scopes,
    this_year: i32,
)
    requires
        unbroken(
            Placement::over(
                fmt::lines_spec(src),
                txns,
                Insertion::Append,
                scopes,
                this_year,
            ),
        ),
    ensures
        fmt::scan_ctx_spec(
            fmt::lines_spec(joined_spec(src, txns, Insertion::Append, scopes, this_year)),
        ) == fmt::scan_ctx_spec(fmt::lines_spec(src)),
{
    let ls = fmt::lines_spec(src);
    let p = Placement::over(ls, txns, Insertion::Append, scopes, this_year);
    let e = p.lines.skip(ls.len() as int);
    lemma_placed_behind(ls, txns, scopes, this_year);
    reveal(behind);
    tokens::lemma_lines_hold_no_newline(src);
    lemma_lines_front(ls, e);
    tokens::lines_come_back(e);
    scanned::lemma_over_is_on(ls);
    scanned::lemma_over_is_on(ls + e);
    scanned::lemma_on_concat(Scan::start(), ls, e);
    lemma_quiet_scan(Scan::over(ls), e);
}

/// A file that is formatted as new transactions are put behind it is what it
/// would be without them, and then what is new, as long as the transactions ask
/// for no wider columns and declare no styles.
pub proof fn formatting_an_appended_file_only_adds(
    src: Seq<char>,
    txns: Seq<NewTxn>,
    opts: WriteOptions,
    inherited: Seq<(usize, Ctx)>,
    scopes: Scopes,
    this_year: i32,
)
    requires
        opts.format_file,
        !opts.sort,
        opts.insertion == Insertion::Append,
        ({
            let ls = fmt::lines_spec(src);
            let all = fmt::lines_spec(joined_spec(src, txns, opts.insertion, scopes, this_year));
            &&& tree::widths_at_spec(all, inherited) == tree::widths_at_spec(ls, inherited)
            &&& fmt::scan_ctx_spec(all) == fmt::scan_ctx_spec(ls)
        }),
    ensures
        integrate::integrate_spec(src, txns, opts, inherited, scopes, this_year)
            matches Outcome::Ready { contents, warnings }
            ==> tree::format_at_spec(src, inherited, columns::plainly()).is_prefix_of(contents),
{
    let ls = fmt::lines_spec(src);
    let p = Placement::over(ls, txns, opts.insertion, scopes, this_year);
    let e = p.lines.skip(ls.len() as int);
    let joined = joined_spec(src, txns, opts.insertion, scopes, this_year);
    lemma_placed_behind(ls, txns, scopes, this_year);
    reveal(behind);
    tokens::lemma_lines_hold_no_newline(src);
    lemma_lines_front(ls, e);
    let f = fmt::lines_spec(fmt::unlines_spec(e));
    assert(apart(ls, Seq::empty(), f)) by {
        if e.len() == 0 {
            assert(fmt::unlines_spec(e) =~= Seq::empty());
        } else if e[0].len() == 0 {
            assert(!e[0].contains('\n'));
            tokens::lemma_unlines_front(e);
            lemma_line_front(e[0], e.skip(1));
            assert(f[0] == e[0]);
        }
    }
    lemma_format_grows(src, joined, f, inherited);
}

/// Writing to a formatted file is a pure append: where the file is formatted
/// already and the new transactions ask for no wider columns, what is written
/// starts with the file as it was, byte for byte. A transaction with a newline
/// in it is another text, which may declare styles of its own: there the law
/// holds as long as it declares none.
pub proof fn writing_to_a_formatted_file_is_a_pure_append(
    src: Seq<char>,
    txns: Seq<NewTxn>,
    opts: WriteOptions,
    inherited: Seq<(usize, Ctx)>,
    scopes: Scopes,
    this_year: i32,
)
    requires
        opts.format_file,
        !opts.sort,
        opts.insertion == Insertion::Append,
        tree::format_at_spec(src, inherited, columns::plainly()) == src,
        tree::widths_at_spec(
            fmt::lines_spec(joined_spec(src, txns, opts.insertion, scopes, this_year)),
            inherited,
        ) == tree::widths_at_spec(fmt::lines_spec(src), inherited),
        unbroken(Placement::over(fmt::lines_spec(src), txns, opts.insertion, scopes, this_year))
            || fmt::scan_ctx_spec(
            fmt::lines_spec(joined_spec(src, txns, opts.insertion, scopes, this_year)),
        ) == fmt::scan_ctx_spec(fmt::lines_spec(src)),
    ensures
        integrate::integrate_spec(src, txns, opts, inherited, scopes, this_year)
            matches Outcome::Ready { contents, warnings } ==> src.is_prefix_of(contents),
{
    if unbroken(
        Placement::over(fmt::lines_spec(src), txns, opts.insertion, scopes, this_year),
    ) {
        new_transactions_declare_no_styles(src, txns, scopes, this_year);
    }
    formatting_an_appended_file_only_adds(src, txns, opts, inherited, scopes, this_year);
}

} // verus!
