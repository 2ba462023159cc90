//! Why formatting settles, under whatever contexts the lines of a text stand and
//! with or without amounts filled in.

use vstd::prelude::*;
use crate::amount::Ctx;
use crate::fmt::{self, Classify, Options, Scan};
use crate::fmt::blank;
use crate::fmt::explicit::{self, Line};
use crate::fmt::laws;
use crate::fmt::posting::{self, Post};
use crate::fmt::refill;
use crate::fmt::reread;
use crate::fmt::resort;
use crate::fmt::scanned;
use crate::fmt::settle;
use crate::fmt::shape;
use crate::fmt::sort;
use crate::fmt::spread;
use crate::fmt::steady;
use crate::lex;
use crate::fmt::tree;
use crate::numerals;
use crate::restyle::Places;
use crate::text::{self, CharClass};
use crate::tokens;

verus! {

// ---- one line at a time ----

/// Whether there is a context to begin with, and all of them are clean.
pub open spec fn all_clean(stages: Seq<Ctx>) -> bool {
    stages.len() > 0 && forall|k: int| 0 <= k < stages.len() ==> settle::clean(#[trigger] stages[k])
}

/// Where lines lead.
#[verifier::opaque]
pub open spec fn read(ls: Seq<Seq<char>>, stages: Seq<Ctx>, opts: Options) -> Classify {
    Classify::over_stages(ls, stages, opts)
}

/// The context in effect behind lines.
#[verifier::opaque]
pub open spec fn here(ls: Seq<Seq<char>>, stages: Seq<Ctx>) -> Ctx {
    fmt::stage(stages, fmt::passed(ls).0)
}

/// Where one line more leads.
#[verifier::opaque]
pub open spec fn next(a: Classify, l: Seq<char>, ctx: Ctx, opts: Options) -> Classify {
    a.step(l, ctx, opts)
}

/// The classes once the open transaction is closed.
#[verifier::opaque]
pub open spec fn ended(a: Classify, ctx: Ctx, opts: Options) -> Seq<Line> {
    a.close(ctx, opts).out
}

/// A posting line as a posting in its styles.
#[verifier::opaque]
pub open spec fn restyled(l: Seq<char>, ctx: Ctx, opts: Options) -> Post {
    posting::restyle_post_spec(posting::parse_posting_spec(l), ctx, opts.places_spec())
}

/// Whether a line is a posting where it stands.
pub open spec fn posts_here(a: Classify, l: Seq<char>) -> bool {
    !a.opaque && !lex::opens_block_spec(l) && a.in_txn && lex::is_indented_spec(l)
}

/// The class of a line that is no posting.
pub open spec fn other_class(a: Classify, l: Seq<char>) -> Line {
    if a.opaque || lex::opens_block_spec(l) {
        Line::Opaque
    } else {
        Line::Other
    }
}

/// Whether a line opens a transaction where it stands.
pub open spec fn begins(a: Classify, l: Seq<char>) -> bool {
    !a.opaque && !lex::opens_block_spec(l) && lex::opens_txn_spec(l)
}

pub proof fn lemma_read(ls: Seq<Seq<char>>, stages: Seq<Ctx>, opts: Options, n: int)
    requires
        0 <= n < ls.len(),
    ensures
        read(ls.take(n + 1), stages, opts) == next(
            read(ls.take(n), stages, opts),
            ls[n],
            here(ls.take(n), stages),
            opts,
        ),
{
    reveal(read);
    reveal(here);
    reveal(next);
    assert(ls.take(n + 1).drop_last() =~= ls.take(n));
    assert(ls.take(n + 1).last() == ls[n]);
}

/// What has been passed once one line more is.
pub open spec fn pass(p: (int, bool), l: Seq<char>) -> (int, bool) {
    if p.1 {
        (p.0, !lex::closes_block_spec(l))
    } else if lex::opens_block_spec(l) {
        (p.0, true)
    } else if !lex::is_indented_spec(l) && lex::directive_arg_spec(l, "include"@) is Some {
        (p.0 + 1, false)
    } else {
        (p.0, false)
    }
}

proof fn lemma_pass(ls: Seq<Seq<char>>, n: int)
    requires
        0 <= n < ls.len(),
    ensures
        fmt::passed(ls.take(n + 1)) == pass(fmt::passed(ls.take(n)), ls[n]),
{
    assert(ls.take(n + 1).drop_last() =~= ls.take(n));
    assert(ls.take(n + 1).last() == ls[n]);
}

proof fn lemma_pass_push(ls: Seq<Seq<char>>, l: Seq<char>)
    ensures
        fmt::passed(ls.push(l)) == pass(fmt::passed(ls), l),
{
    assert(ls.push(l).drop_last() =~= ls);
}

/// Indented lines outside a `comment` block bring nothing in.
proof fn lemma_pass_indented(ls: Seq<Seq<char>>, p: Seq<Seq<char>>, n: int)
    requires
        !fmt::passed(ls).1,
        forall|j: int| 0 <= j < p.len() ==> lex::is_indented_spec(#[trigger] p[j]),
        0 <= n <= p.len(),
    ensures
        fmt::passed(ls + p.take(n)) == fmt::passed(ls),
    decreases n,
{
    if n == 0 {
        assert(ls + p.take(0) =~= ls);
    } else {
        lemma_pass_indented(ls, p, n - 1);
        assert(lex::is_indented_spec(p[n - 1]));
        laws::lemma_indented_kind(p[n - 1]);
        lemma_pass_push(ls + p.take(n - 1), p[n - 1]);
        assert((ls + p.take(n - 1)).push(p[n - 1]) =~= ls + p.take(n));
    }
}

proof fn lemma_passed_count(ls: Seq<Seq<char>>)
    ensures
        fmt::passed(ls).0 >= 0,
    decreases ls.len(),
{
    if ls.len() > 0 {
        lemma_passed_count(ls.drop_last());
    }
}

pub proof fn lemma_next_post(a: Classify, l: Seq<char>, ctx: Ctx, opts: Options)
    requires
        posts_here(a, l),
    ensures
        next(a, l, ctx, opts) == (Classify {
            out: a.out.push(Line::Post(seq![restyled(l, fmt::marked(ctx, a.mark), opts)])),
            ..a
        }),
{
    reveal(next);
    reveal(restyled);
}

pub proof fn lemma_next_other(a: Classify, l: Seq<char>, ctx: Ctx, opts: Options)
    requires
        !posts_here(a, l),
        a.opaque ==> a.txn is None && !a.in_txn,
        a.txn is None ==> !a.in_txn,
    ensures
        ({
            let b = next(a, l, ctx, opts);
            &&& b.out == ended(a, ctx, opts).push(other_class(a, l))
            &&& b.in_txn == begins(a, l)
            &&& b.opaque == (if a.opaque {
                !lex::closes_block_spec(l)
            } else {
                lex::opens_block_spec(l)
            })
            &&& b.txn == (if begins(a, l) {
                Some((ended(a, ctx, opts).len() as int + 1, b.mark))
            } else {
                None
            })
            &&& b.mark == (if a.opaque || lex::opens_block_spec(l) {
                a.mark
            } else {
                match lex::directive_arg_spec(l, "decimal-mark"@) {
                    Some(arg) => fmt::mark_named(arg),
                    None => a.mark,
                }
            })
        }),
{
    reveal(next);
    reveal(ended);
}

// ---- where a text leads ----

/// Whether a class is one of a line where it stands, with postings that stay as
/// they are.
#[verifier::opaque]
pub open spec fn fits(a: Classify, l: Seq<char>, c: Line, ctx: Ctx, opts: Options) -> bool {
    &&& refill::uniform(c)
    &&& refill::firm_line(c, fmt::marked(ctx, a.mark), opts.places_spec())
    &&& c is Post ==> posts_here(a, l)
    &&& !(c is Post) ==> !posts_here(a, l) && c == other_class(a, l)
}

/// The classes of the lines so far, and the open transaction.
pub open spec fn sound(ls: Seq<Seq<char>>, stages: Seq<Ctx>, opts: Options, n: int) -> bool {
    let a = read(ls.take(n), stages, opts);
    &&& a.out.len() == n
    &&& forall|i: int|
        0 <= i < n ==> fits(
            read(ls.take(i), stages, opts),
            ls[i],
            #[trigger] a.out[i],
            here(ls.take(i), stages),
            opts,
        )
    &&& fmt::passed(ls.take(n)).1 == a.opaque
    &&& a.in_txn == (a.txn is Some)
    &&& a.txn matches Some((s, m)) ==> {
        &&& 0 <= s <= n
        &&& m == a.mark
        &&& !a.opaque
        &&& forall|i: int|
            #![trigger a.out[i]]
            s <= i < n ==> read(ls.take(i), stages, opts).mark == a.mark && a.out[i] is Post
                && here(ls.take(i), stages) == here(ls.take(n), stages)
    }
}

/// A closed transaction has its classes still.
proof fn lemma_closed(ls: Seq<Seq<char>>, stages: Seq<Ctx>, opts: Options, n: int)
    requires
        0 <= n <= ls.len(),
        sound(ls, stages, opts, n),
    ensures
        ({
            let a = read(ls.take(n), stages, opts);
            let out = ended(a, here(ls.take(n), stages), opts);
            &&& out.len() == n
            &&& forall|i: int|
                0 <= i < n ==> fits(
                    read(ls.take(i), stages, opts),
                    ls[i],
                    #[trigger] out[i],
                    here(ls.take(i), stages),
                    opts,
                )
            &&& a.txn matches Some((s, m)) ==> {
                &&& out.take(s) == a.out.take(s)
                &&& opts.explicit ==> explicit::fill_spec(
                    refill::all_apart(out.skip(s)),
                    fmt::marked(here(ls.take(n), stages), m),
                ) == refill::all_apart(out.skip(s))
            }
            &&& a.txn is None || !opts.explicit ==> out == a.out
        }),
{
    let a = read(ls.take(n), stages, opts);
    let out = ended(a, here(ls.take(n), stages), opts);
    reveal(ended);
    if a.txn is Some && opts.explicit {
        let (s, m) = a.txn->0;
        let at = fmt::marked(here(ls.take(n), stages), m);
        let txn = a.out.skip(s);
        let full = explicit::fill_spec(txn, at);
        assert forall|i: int| 0 <= i < txn.len() implies refill::uniform(#[trigger] txn[i])
            && refill::firm_line(txn[i], at, Places::AtLeastDeclared) by {
            assert(txn[i] == a.out[s + i]);
            reveal(fits);
        }
        refill::lemma_filled_once(txn, at);
        assert(out == a.out.take(s) + full);
        assert(out.take(s) =~= a.out.take(s));
        assert(out.skip(s) =~= full);
        assert forall|i: int| 0 <= i < n implies fits(
            read(ls.take(i), stages, opts),
            ls[i],
            #[trigger] out[i],
            here(ls.take(i), stages),
            opts,
        ) by {
            if i < s {
                assert(out[i] == a.out[i]);
            } else {
                assert(out[i] == full[i - s]);
                assert(txn[i - s] == a.out[i]);
                assert(a.out[i] is Post);
                assert((full[i - s] is Post) == (txn[i - s] is Post));
                assert(refill::uniform(full[i - s]));
                assert(refill::firm_line(full[i - s], at, Places::AtLeastDeclared));
                reveal(fits);
            }
        }
    }
}

/// A posting line reads as a posting that stays as it is once it is restyled.
proof fn lemma_restyled_fits(a: Classify, l: Seq<char>, ctx: Ctx, opts: Options)
    requires
        settle::clean(fmt::marked(ctx, a.mark)),
        posts_here(a, l),
        !l.contains('\n'),
    ensures
        fits(a, l, Line::Post(seq![restyled(l, fmt::marked(ctx, a.mark), opts)]), ctx, opts),
{
    let at = fmt::marked(ctx, a.mark);
    let p = posting::parse_posting_spec(l);
    settle::lemma_parsed_plain(l);
    settle::lemma_restyled_plain(p, at, opts.places_spec());
    steady::lemma_post_settles(p, at, opts.places_spec());
    reveal(restyled);
    reveal(fits);
}

proof fn lemma_other_fits(a: Classify, l: Seq<char>, ctx: Ctx, opts: Options)
    requires
        !posts_here(a, l),
    ensures
        fits(a, l, other_class(a, l), ctx, opts),
{
    reveal(fits);
}

pub proof fn lemma_clean_here(ls: Seq<Seq<char>>, stages: Seq<Ctx>, opts: Options)
    requires
        all_clean(stages),
    ensures
        settle::clean(fmt::marked(here(ls, stages), read(ls, stages, opts).mark)),
{
    reveal(here);
    lemma_passed_count(ls);
    lemma_mark(ls, stages, opts);
}

/// The mark in effect is always one.
proof fn lemma_mark(ls: Seq<Seq<char>>, stages: Seq<Ctx>, opts: Options)
    requires
        all_clean(stages),
    ensures
        read(ls, stages, opts).mark matches Some(m) ==> CharClass::Mark.has(m),
    decreases ls.len(),
{
    reveal(read);
    if ls.len() > 0 {
        lemma_mark(ls.drop_last(), stages, opts);
        let c = Classify::over_stages(ls.drop_last(), stages, opts);
        let ctx = fmt::stage(stages, fmt::passed(ls.drop_last()).0);
        assert(c.close(ctx, opts).mark == c.mark);
    } else {
        assert(settle::clean(stages[0]));
    }
}

pub proof fn lemma_sound(ls: Seq<Seq<char>>, stages: Seq<Ctx>, opts: Options, n: int)
    requires
        all_clean(stages),
        forall|i: int| 0 <= i < ls.len() ==> !(#[trigger] ls[i]).contains('\n'),
        0 <= n <= ls.len(),
    ensures
        sound(ls, stages, opts, n),
    decreases n,
{
    if n == 0 {
        assert(ls.take(0) =~= Seq::empty());
        reveal(read);
    } else {
        let k = n - 1;
        let l = ls[k];
        lemma_sound(ls, stages, opts, k);
        lemma_read(ls, stages, opts, k);
        lemma_pass(ls, k);
        let ctx = here(ls.take(k), stages);
        let a = read(ls.take(k), stages, opts);
        let b = read(ls.take(n), stages, opts);
        assert(b == next(a, l, ctx, opts));
        if posts_here(a, l) {
            lemma_next_post(a, l, ctx, opts);
            lemma_clean_here(ls.take(k), stages, opts);
            lemma_restyled_fits(a, l, ctx, opts);
            assert forall|i: int| 0 <= i < n implies fits(
                read(ls.take(i), stages, opts),
                ls[i],
                #[trigger] b.out[i],
                here(ls.take(i), stages),
                opts,
            ) by {
                if i < k {
                    assert(b.out[i] == a.out[i]);
                }
            }
            let (s, m) = a.txn->0;
            assert(here(ls.take(n), stages) == ctx) by {
                reveal(here);
            }
            assert forall|i: int| #![trigger b.out[i]] s <= i < n implies read(
                ls.take(i),
                stages,
                opts,
            ).mark == b.mark && b.out[i] is Post && here(ls.take(i), stages) == here(
                ls.take(n),
                stages,
            ) by {
                if i < k {
                    assert(b.out[i] == a.out[i]);
                }
            }
        } else {
            lemma_closed(ls, stages, opts, k);
            lemma_next_other(a, l, ctx, opts);
            lemma_other_fits(a, l, ctx, opts);
            let out = ended(a, ctx, opts);
            assert forall|i: int| 0 <= i < n implies fits(
                read(ls.take(i), stages, opts),
                ls[i],
                #[trigger] b.out[i],
                here(ls.take(i), stages),
                opts,
            ) by {
                if i < k {
                    assert(b.out[i] == out[i]);
                }
            }
        }
    }
}

/// Where the open transaction starts, or where the text ends.
pub open spec fn start_of(a: Classify, n: int) -> int {
    match a.txn {
        Some((s, _)) => s,
        None => n,
    }
}

/// What is classified before the open transaction is classified so for good,
/// and so is the transaction where it is closed.
pub proof fn lemma_for_good(ls: Seq<Seq<char>>, stages: Seq<Ctx>, opts: Options, n: int)
    requires
        all_clean(stages),
        forall|i: int| 0 <= i < ls.len() ==> !(#[trigger] ls[i]).contains('\n'),
        0 <= n <= ls.len(),
    ensures
        ({
            let a = read(ls.take(n), stages, opts);
            let styled = fmt::styled_stages_spec(ls, stages, opts);
            let s = start_of(a, n);
            &&& styled.len() == ls.len()
            &&& styled.take(s) == a.out.take(s)
            &&& n == ls.len() || !posts_here(a, ls[n]) ==> styled.take(n) == ended(
                a,
                here(ls.take(n), stages),
                opts,
            )
        }),
    decreases ls.len() - n,
{
    let a = read(ls.take(n), stages, opts);
    let styled = fmt::styled_stages_spec(ls, stages, opts);
    let s = start_of(a, n);
    lemma_sound(ls, stages, opts, n);
    lemma_closed(ls, stages, opts, n);
    let out = ended(a, here(ls.take(n), stages), opts);
    if n == ls.len() {
        assert(ls.take(n) =~= ls);
        assert(styled == out) by {
            reveal(read);
            reveal(here);
            reveal(ended);
        }
        assert(styled.take(n) =~= styled);
        if a.txn is None {
            assert(a.out.take(n) =~= a.out);
        }
    } else {
        lemma_for_good(ls, stages, opts, n + 1);
        lemma_read(ls, stages, opts, n);
        let b = read(ls.take(n + 1), stages, opts);
        let t = start_of(b, n + 1);
        if posts_here(a, ls[n]) {
            lemma_next_post(a, ls[n], here(ls.take(n), stages), opts);
            assert(t == s);
            assert(b.out.take(s) =~= a.out.take(s));
        } else {
            lemma_next_other(a, ls[n], here(ls.take(n), stages), opts);
            assert(t == n + 1);
            assert(b.out.take(t) =~= b.out);
            assert(styled.take(n) =~= styled.take(n + 1).take(n));
            assert(styled.take(n) =~= out);
            assert(styled.take(s) =~= styled.take(n).take(s));
            if a.txn is None {
                assert(a.out.take(n) =~= a.out);
            }
        }
    }
}

/// The class that a line ends up with fits it.
pub proof fn lemma_class_fits(ls: Seq<Seq<char>>, stages: Seq<Ctx>, opts: Options)
    requires
        all_clean(stages),
        forall|i: int| 0 <= i < ls.len() ==> !(#[trigger] ls[i]).contains('\n'),
    ensures
        fmt::styled_stages_spec(ls, stages, opts).len() == ls.len(),
        forall|i: int|
            0 <= i < ls.len() ==> fits(
                read(ls.take(i), stages, opts),
                ls[i],
                #[trigger] fmt::styled_stages_spec(ls, stages, opts)[i],
                here(ls.take(i), stages),
                opts,
            ),
{
    let n = ls.len() as int;
    lemma_sound(ls, stages, opts, n);
    lemma_closed(ls, stages, opts, n);
    lemma_for_good(ls, stages, opts, n);
    let styled = fmt::styled_stages_spec(ls, stages, opts);
    assert(styled.take(n) =~= styled);
}

// ---- what is written ----

/// What lines are written as, line by line.
pub open spec fn pieces(acc_w: nat, num_w: nat, ls: Seq<Seq<char>>, styled: Seq<Line>) -> Seq<
    Seq<Seq<char>>,
> {
    Seq::new(ls.len(), |i: int| fmt::format_line_spec(acc_w, num_w, ls[i], styled[i]))
}

pub proof fn lemma_pieces(acc_w: nat, num_w: nat, ls: Seq<Seq<char>>, styled: Seq<Line>, n: int)
    requires
        0 <= n <= ls.len(),
    ensures
        fmt::format_upto_spec(acc_w, num_w, ls, styled, n) == spread::flat(
            pieces(acc_w, num_w, ls, styled).take(n),
        ),
    decreases n,
{
    let ps = pieces(acc_w, num_w, ls, styled);
    if n == 0 {
        assert(ps.take(0) =~= Seq::empty());
        assert(spread::flat(ps.take(0)) =~= Seq::empty());
    } else {
        lemma_pieces(acc_w, num_w, ls, styled, n - 1);
        assert(ps.take(n) =~= ps.take(n - 1) + seq![ps[n - 1]]);
        spread::lemma_flat_concat(ps.take(n - 1), seq![ps[n - 1]]);
        spread::lemma_flat_one(ps[n - 1]);
    }
}

/// What a line is written as can stand in its place.
pub proof fn lemma_written(
    acc_w: nat,
    num_w: nat,
    at: Classify,
    l: Seq<char>,
    c: Line,
    ctx: Ctx,
    opts: Options,
)
    requires
        fits(at, l, c, ctx, opts),
        !l.contains('\n'),
    ensures
        ({
            let p = fmt::format_line_spec(acc_w, num_w, l, c);
            &&& spread::replaces(l, p)
            &&& forall|j: int| 0 <= j < p.len() ==> !(#[trigger] p[j]).contains('\n')
            &&& !(c is Post) ==> p.len() == 1 && (lex::directive_arg_spec(p[0], "include"@) is Some)
                == (lex::directive_arg_spec(l, "include"@) is Some)
        }),
{
    let p = fmt::format_line_spec(acc_w, num_w, l, c);
    reveal(fits);
    match c {
        Line::Post(qs) => {
            laws::lemma_indented_kind(l);
            assert forall|j: int| 0 <= j < p.len() implies shape::alike(l, #[trigger] p[j])
                && resort::same_date(l, p[j]) && !p[j].contains('\n') by {
                assert(refill::firm(qs[j], fmt::marked(ctx, at.mark), opts.places_spec()));
                assert(p[j] == posting::render_spec(acc_w, num_w, qs[j]));
                settle::lemma_laid_out_line(acc_w, num_w, qs[j]);
                laws::lemma_indented_kind(p[j]);
            }
        },
        Line::Other => {
            laws::lemma_other(l);
            let from = Classify::start(ctx);
            resort::lemma_date_kept(
                acc_w,
                num_w,
                from,
                l,
                ctx,
                Options { sort: false, explicit: false },
            );
            assert(p =~= seq![fmt::format_other_spec(l)]);
            lemma_include_kept(l);
            assert(resort::same_date(l, p[0])) by {
                if lex::opens_txn_spec(l) {
                    assert(laws::class_of(from, l, ctx, Options { sort: false, explicit: false })
                        == Line::Other);
                }
            }
        },
        Line::Opaque => {},
    }
}

/// A line and what it is written as bring in the same.
proof fn lemma_include_kept(l: Seq<char>)
    ensures
        (lex::directive_arg_spec(fmt::format_other_spec(l), "include"@) is Some) == (
        lex::directive_arg_spec(l, "include"@) is Some),
{
    reveal_strlit("include");
    let f = fmt::format_other_spec(l);
    if lex::is_blank_spec(l) {
        if l.len() > 0 {
            assert(text::is_white(l[0]));
        }
        laws::lemma_no_directive(l, "include"@);
        laws::lemma_no_directive(f, "include"@);
    } else if lex::opens_txn_spec(l) {
        reread::lemma_rstrip(l);
        assert(f[0] == l[0]);
        laws::lemma_no_directive(l, "include"@);
        laws::lemma_no_directive(f, "include"@);
    }
}

/// No written line holds a newline.
pub proof fn lemma_pieces_without(
    acc_w: nat,
    num_w: nat,
    ls: Seq<Seq<char>>,
    stages: Seq<Ctx>,
    opts: Options,
)
    requires
        all_clean(stages),
        forall|i: int| 0 <= i < ls.len() ==> !(#[trigger] ls[i]).contains('\n'),
    ensures
        ({
            let ws = spread::flat(pieces(acc_w, num_w, ls, fmt::styled_stages_spec(ls, stages, opts)));
            forall|i: int| 0 <= i < ws.len() ==> !(#[trigger] ws[i]).contains('\n')
        }),
{
    let styled = fmt::styled_stages_spec(ls, stages, opts);
    let ps = pieces(acc_w, num_w, ls, styled);
    lemma_class_fits(ls, stages, opts);
    assert forall|i: int| 0 <= i < ps.len() implies forall|j: int|
        0 <= j < (#[trigger] ps[i]).len() ==> !(#[trigger] ps[i][j]).contains('\n') by {
        assert(fits(
            read(ls.take(i), stages, opts),
            ls[i],
            styled[i],
            here(ls.take(i), stages),
            opts,
        ));
        lemma_written(
            acc_w,
            num_w,
            read(ls.take(i), stages, opts),
            ls[i],
            styled[i],
            here(ls.take(i), stages),
            opts,
        );
    }
    spread::lemma_flat_without(ps);
}

// ---- reading it again ----

/// Classifying on from a point.
pub open spec fn on(a: Classify, ls: Seq<Seq<char>>, ctx: Ctx, opts: Options) -> Classify
    decreases ls.len(),
{
    if ls.len() == 0 {
        a
    } else {
        next(on(a, ls.drop_last(), ctx, opts), ls.last(), ctx, opts)
    }
}

proof fn lemma_on(
    a: Seq<Seq<char>>,
    b: Seq<Seq<char>>,
    ctx: Ctx,
    stages: Seq<Ctx>,
    opts: Options,
)
    requires
        forall|j: int| 0 <= j < b.len() ==> here(a + #[trigger] b.take(j), stages) == ctx,
    ensures
        read(a + b, stages, opts) == on(read(a, stages, opts), b, ctx, opts),
    decreases b.len(),
{
    if b.len() == 0 {
        assert(a + b =~= a);
    } else {
        let f = b.drop_last();
        assert forall|j: int| 0 <= j < f.len() implies here(a + #[trigger] f.take(j), stages)
            == ctx by {
            assert(f.take(j) =~= b.take(j));
        }
        lemma_on(a, f, ctx, stages, opts);
        let n = b.len() - 1;
        assert(b.take(n) =~= f);
        assert(here(a + b.take(n), stages) == ctx);
        let all = a + b;
        lemma_read(all, stages, opts, all.len() - 1);
        assert(all.take(all.len() - 1) =~= a + f);
        assert(all.take(all.len() as int) =~= all);
        assert(all[all.len() - 1] == b.last());
    }
}

/// A posting that stays as it is, read where it is written.
proof fn lemma_written_post(
    acc_w: nat,
    num_w: nat,
    a: Classify,
    q: Post,
    ctx: Ctx,
    opts: Options,
)
    requires
        a.in_txn,
        !a.opaque,
        refill::firm(q, fmt::marked(ctx, a.mark), opts.places_spec()),
    ensures
        ({
            let w = posting::render_spec(acc_w, num_w, q);
            &&& posts_here(a, w)
            &&& restyled(w, fmt::marked(ctx, a.mark), opts) == q
        }),
{
    let w = posting::render_spec(acc_w, num_w, q);
    settle::lemma_laid_out_line(acc_w, num_w, q);
    laws::lemma_indented_kind(w);
    reread::lemma_laid_out(acc_w, num_w, q);
    reveal(restyled);
}

/// Postings that stay as they are, read where they are written.
proof fn lemma_on_posts(
    acc_w: nat,
    num_w: nat,
    a: Classify,
    qs: Seq<Post>,
    ctx: Ctx,
    opts: Options,
)
    requires
        a.in_txn,
        !a.opaque,
        forall|i: int|
            0 <= i < qs.len() ==> refill::firm(
                #[trigger] qs[i],
                fmt::marked(ctx, a.mark),
                opts.places_spec(),
            ),
    ensures
        on(a, fmt::render_all_spec(acc_w, num_w, qs), ctx, opts) == (Classify {
            out: a.out + refill::apart(Line::Post(qs)),
            ..a
        }),
    decreases qs.len(),
{
    let ws = fmt::render_all_spec(acc_w, num_w, qs);
    let sp = refill::apart(Line::Post(qs));
    if qs.len() == 0 {
        assert(a.out + sp =~= a.out);
    } else {
        let f = qs.drop_last();
        let q = qs[qs.len() - 1];
        assert forall|i: int| 0 <= i < f.len() implies refill::firm(
            #[trigger] f[i],
            fmt::marked(ctx, a.mark),
            opts.places_spec(),
        ) by {
            assert(f[i] == qs[i]);
        }
        lemma_on_posts(acc_w, num_w, a, f, ctx, opts);
        assert(ws.drop_last() =~= fmt::render_all_spec(acc_w, num_w, f));
        assert(refill::firm(q, fmt::marked(ctx, a.mark), opts.places_spec()));
        let w = posting::render_spec(acc_w, num_w, q);
        assert(ws.last() == w);
        let mid = on(a, ws.drop_last(), ctx, opts);
        lemma_written_post(acc_w, num_w, mid, q, ctx, opts);
        lemma_next_post(mid, w, ctx, opts);
        assert(a.out + sp =~= (a.out + refill::apart(Line::Post(f))).push(Line::Post(seq![q])));
    }
}

/// Whether lines are written as they stand.
pub open spec fn fixed(acc_w: nat, num_w: nat, ws: Seq<Seq<char>>, cs: Seq<Line>) -> bool {
    &&& ws.len() == cs.len()
    &&& forall|j: int|
        0 <= j < ws.len() ==> fmt::format_line_spec(acc_w, num_w, #[trigger] ws[j], cs[j])
            == seq![ws[j]]
}

proof fn lemma_fixed_concat(
    acc_w: nat,
    num_w: nat,
    a: Seq<Seq<char>>,
    x: Seq<Line>,
    b: Seq<Seq<char>>,
    y: Seq<Line>,
)
    requires
        fixed(acc_w, num_w, a, x),
        fixed(acc_w, num_w, b, y),
    ensures
        fixed(acc_w, num_w, a + b, x + y),
{
    let ws = a + b;
    let cs = x + y;
    assert forall|j: int| 0 <= j < ws.len() implies fmt::format_line_spec(
        acc_w,
        num_w,
        #[trigger] ws[j],
        cs[j],
    ) == seq![ws[j]] by {
        if j < a.len() {
            assert(ws[j] == a[j] && cs[j] == x[j]);
        } else {
            assert(ws[j] == b[j - a.len()] && cs[j] == y[j - a.len()]);
        }
    }
}

proof fn lemma_fixed_upto(acc_w: nat, num_w: nat, ws: Seq<Seq<char>>, cs: Seq<Line>, n: int)
    requires
        fixed(acc_w, num_w, ws, cs),
        0 <= n <= ws.len(),
    ensures
        fmt::format_upto_spec(acc_w, num_w, ws, cs, n) == ws.take(n),
    decreases n,
{
    if n > 0 {
        lemma_fixed_upto(acc_w, num_w, ws, cs, n - 1);
        assert(fmt::format_line_spec(acc_w, num_w, ws[n - 1], cs[n - 1]) == seq![ws[n - 1]]);
        assert(ws.take(n - 1) + seq![ws[n - 1]] =~= ws.take(n));
    } else {
        assert(ws.take(0) =~= Seq::empty());
    }
}

/// A line as it is written is written so again.
proof fn lemma_fixed_one(acc_w: nat, num_w: nat, l: Seq<char>, c: Line)
    ensures
        fixed(acc_w, num_w, fmt::format_line_spec(acc_w, num_w, l, c), refill::apart(c)),
{
    let ws = fmt::format_line_spec(acc_w, num_w, l, c);
    let cs = refill::apart(c);
    laws::lemma_other(l);
    assert forall|j: int| 0 <= j < ws.len() implies fmt::format_line_spec(
        acc_w,
        num_w,
        #[trigger] ws[j],
        cs[j],
    ) == seq![ws[j]] by {
        if let Line::Post(qs) = c {
            assert(cs[j] == Line::Post(seq![qs[j]]));
            assert(fmt::render_all_spec(acc_w, num_w, seq![qs[j]]) =~= seq![ws[j]]);
        }
    }
}

/// Whether what the first lines are written as is classified as they are.
pub open spec fn in_step(
    acc_w: nat,
    num_w: nat,
    ls: Seq<Seq<char>>,
    stages: Seq<Ctx>,
    opts: Options,
    n: int,
) -> bool {
    let styled = fmt::styled_stages_spec(ls, stages, opts);
    let ws = spread::flat(pieces(acc_w, num_w, ls, styled).take(n));
    let a = read(ls.take(n), stages, opts);
    let b = read(ws, stages, opts);
    &&& laws::same_point(a, b)
    &&& fmt::passed(ws) == fmt::passed(ls.take(n))
    &&& b.out == refill::all_apart(styled.take(n))
    &&& fixed(acc_w, num_w, ws, b.out)
    &&& (a.txn is Some) == (b.txn is Some)
    &&& a.txn matches Some((s, m)) ==> b.txn == Some(
        (refill::all_apart(styled.take(s)).len() as int, m),
    )
}

/// Closing a transaction that is read again changes nothing more.
proof fn lemma_close_again(
    acc_w: nat,
    num_w: nat,
    ls: Seq<Seq<char>>,
    stages: Seq<Ctx>,
    opts: Options,
    n: int,
)
    requires
        all_clean(stages),
        forall|i: int| 0 <= i < ls.len() ==> !(#[trigger] ls[i]).contains('\n'),
        0 <= n <= ls.len(),
        in_step(acc_w, num_w, ls, stages, opts, n),
        n == ls.len() || !posts_here(read(ls.take(n), stages, opts), ls[n]),
    ensures
        ({
            let styled = fmt::styled_stages_spec(ls, stages, opts);
            let ws = spread::flat(pieces(acc_w, num_w, ls, styled).take(n));
            let b = read(ws, stages, opts);
            ended(b, here(ws, stages), opts) == b.out
        }),
{
    let styled = fmt::styled_stages_spec(ls, stages, opts);
    let ws = spread::flat(pieces(acc_w, num_w, ls, styled).take(n));
    let a = read(ls.take(n), stages, opts);
    let b = read(ws, stages, opts);
    lemma_sound(ls, stages, opts, n);
    lemma_closed(ls, stages, opts, n);
    lemma_for_good(ls, stages, opts, n);
    let out = ended(a, here(ls.take(n), stages), opts);
    assert(styled.take(n) == out);
    if let Some((s, m)) = a.txn {
        let front = styled.take(s);
        let txn = out.skip(s);
        assert(out =~= out.take(s) + txn);
        assert(out.take(s) =~= front) by {
            assert(front =~= styled.take(n).take(s));
        }
        refill::lemma_apart_concat(front, txn);
        let x = refill::all_apart(front);
        let y = refill::all_apart(txn);
        assert(b.out == x + y);
        assert(b.out.take(x.len() as int) =~= x);
        assert(b.out.skip(x.len() as int) =~= y);
    }
    assert(here(ws, stages) == here(ls.take(n), stages)) by {
        reveal(here);
    }
    reveal(ended);
}

/// A posting line further.
proof fn lemma_further_post(
    acc_w: nat,
    num_w: nat,
    a: Classify,
    b: Classify,
    l: Seq<char>,
    qs: Seq<Post>,
    ctx: Ctx,
    opts: Options,
)
    requires
        laws::same_point(a, b),
        fits(a, l, Line::Post(qs), ctx, opts),
    ensures
        ({
            let a2 = next(a, l, ctx, opts);
            let b2 = on(b, fmt::format_line_spec(acc_w, num_w, l, Line::Post(qs)), ctx, opts);
            &&& laws::same_point(a2, b2)
            &&& b2.out == b.out + refill::apart(Line::Post(qs))
            &&& a2.txn == a.txn
            &&& b2.txn == b.txn
        }),
{
    assert(posts_here(a, l)) by {
        reveal(fits);
    }
    lemma_next_post(a, l, ctx, opts);
    assert forall|i: int| 0 <= i < qs.len() implies refill::firm(
        #[trigger] qs[i],
        fmt::marked(ctx, b.mark),
        opts.places_spec(),
    ) by {
        reveal(fits);
    }
    lemma_on_posts(acc_w, num_w, b, qs, ctx, opts);
}

/// Any other line further.
proof fn lemma_further_other(
    acc_w: nat,
    num_w: nat,
    a: Classify,
    b: Classify,
    l: Seq<char>,
    c: Line,
    ctx: Ctx,
    opts: Options,
)
    requires
        laws::same_point(a, b),
        fits(a, l, c, ctx, opts),
        !(c is Post),
        !l.contains('\n'),
        ended(b, ctx, opts) == b.out,
        (a.txn is Some) == (b.txn is Some),
        a.in_txn == (a.txn is Some),
        a.opaque ==> a.txn is None,
    ensures
        ({
            let a2 = next(a, l, ctx, opts);
            let b2 = on(b, fmt::format_line_spec(acc_w, num_w, l, c), ctx, opts);
            &&& laws::same_point(a2, b2)
            &&& b2.out == b.out + refill::apart(c)
            &&& a2.txn == (if begins(a, l) {
                Some((ended(a, ctx, opts).len() as int + 1, a2.mark))
            } else {
                None
            })
            &&& b2.txn == (if begins(a, l) {
                Some((b.out.len() as int + 1, a2.mark))
            } else {
                None
            })
        }),
{
    let p = fmt::format_line_spec(acc_w, num_w, l, c);
    lemma_written(acc_w, num_w, a, l, c, ctx, opts);
    laws::lemma_other(l);
    assert(!posts_here(a, l) && c == other_class(a, l)) by {
        reveal(fits);
    }
    let w = p[0];
    assert(p =~= seq![w]);
    assert(p.drop_last() =~= Seq::empty());
    assert(p.last() == w);
    assert(on(b, p.drop_last(), ctx, opts) == b);
    assert(on(b, p, ctx, opts) == next(b, w, ctx, opts));
    assert(shape::alike(l, w));
    assert(!posts_here(b, w));
    assert(other_class(b, w) == c);
    lemma_next_other(a, l, ctx, opts);
    lemma_next_other(b, w, ctx, opts);
    assert(refill::apart(c) =~= seq![c]);
    assert(b.out.push(c) =~= b.out + refill::apart(c));
}

/// What a line is written as brings in what the line does.
proof fn lemma_piece_passed(
    acc_w: nat,
    num_w: nat,
    ws: Seq<Seq<char>>,
    a: Classify,
    l: Seq<char>,
    c: Line,
    ctx: Ctx,
    stages: Seq<Ctx>,
    opts: Options,
)
    requires
        fits(a, l, c, ctx, opts),
        !l.contains('\n'),
        fmt::passed(ws).1 == a.opaque,
        here(ws, stages) == ctx,
    ensures
        ({
            let p = fmt::format_line_spec(acc_w, num_w, l, c);
            &&& fmt::passed(ws + p) == pass(fmt::passed(ws), l)
            &&& forall|j: int| 0 <= j < p.len() ==> here(ws + #[trigger] p.take(j), stages) == ctx
        }),
{
    let p = fmt::format_line_spec(acc_w, num_w, l, c);
    lemma_written(acc_w, num_w, a, l, c, ctx, opts);
    if c is Post {
        assert(posts_here(a, l)) by {
            reveal(fits);
        }
        assert forall|j: int| 0 <= j < p.len() implies lex::is_indented_spec(#[trigger] p[j]) by {
            assert(shape::alike(l, p[j]));
        }
        assert forall|j: int| 0 <= j < p.len() implies here(ws + #[trigger] p.take(j), stages)
            == ctx by {
            lemma_pass_indented(ws, p, j);
            reveal(here);
        }
        lemma_pass_indented(ws, p, p.len() as int);
        assert(p.take(p.len() as int) =~= p);
    } else {
        assert(shape::alike(l, p[0]));
        lemma_pass_push(ws, p[0]);
        assert(ws + p =~= ws.push(p[0]));
        assert forall|j: int| 0 <= j < p.len() implies here(ws + #[trigger] p.take(j), stages)
            == ctx by {
            assert(ws + p.take(0) =~= ws);
        }
    }
}

/// One line further.
proof fn lemma_next(
    acc_w: nat,
    num_w: nat,
    ls: Seq<Seq<char>>,
    stages: Seq<Ctx>,
    opts: Options,
    n: int,
)
    requires
        all_clean(stages),
        forall|i: int| 0 <= i < ls.len() ==> !(#[trigger] ls[i]).contains('\n'),
        0 <= n < ls.len(),
        in_step(acc_w, num_w, ls, stages, opts, n),
    ensures
        in_step(acc_w, num_w, ls, stages, opts, n + 1),
{
    let styled = fmt::styled_stages_spec(ls, stages, opts);
    let ps = pieces(acc_w, num_w, ls, styled);
    let ws = spread::flat(ps.take(n));
    let a = read(ls.take(n), stages, opts);
    let b = read(ws, stages, opts);
    let l = ls[n];
    let c = styled[n];
    let p = ps[n];
    let ctx = here(ls.take(n), stages);
    lemma_sound(ls, stages, opts, n);
    lemma_class_fits(ls, stages, opts);
    assert(fits(a, l, c, ctx, opts));
    assert(p == fmt::format_line_spec(acc_w, num_w, l, c));
    assert(ps.take(n + 1) =~= ps.take(n) + seq![p]);
    spread::lemma_flat_concat(ps.take(n), seq![p]);
    spread::lemma_flat_one(p);
    assert(here(ws, stages) == ctx) by {
        reveal(here);
    }
    lemma_piece_passed(acc_w, num_w, ws, a, l, c, ctx, stages, opts);
    lemma_on(ws, p, ctx, stages, opts);
    lemma_pass(ls, n);
    lemma_read(ls, stages, opts, n);
    assert(styled.take(n + 1).drop_last() =~= styled.take(n));
    assert(styled.take(n + 1).last() == c);
    assert(refill::all_apart(styled.take(n + 1)) == refill::all_apart(styled.take(n))
        + refill::apart(c));
    lemma_fixed_one(acc_w, num_w, l, c);
    lemma_fixed_concat(acc_w, num_w, ws, b.out, p, refill::apart(c));
    if let Line::Post(qs) = c {
        lemma_further_post(acc_w, num_w, a, b, l, qs, ctx, opts);
    } else {
        assert(!posts_here(a, l)) by {
            reveal(fits);
        }
        lemma_close_again(acc_w, num_w, ls, stages, opts, n);
        lemma_closed(ls, stages, opts, n);
        lemma_further_other(acc_w, num_w, a, b, l, c, ctx, opts);
        assert(refill::apart(c).len() == 1);
    }
}

proof fn lemma_in_step(
    acc_w: nat,
    num_w: nat,
    ls: Seq<Seq<char>>,
    stages: Seq<Ctx>,
    opts: Options,
    n: int,
)
    requires
        all_clean(stages),
        forall|i: int| 0 <= i < ls.len() ==> !(#[trigger] ls[i]).contains('\n'),
        0 <= n <= ls.len(),
    ensures
        in_step(acc_w, num_w, ls, stages, opts, n),
    decreases n,
{
    if n == 0 {
        let styled = fmt::styled_stages_spec(ls, stages, opts);
        assert(ls.take(0) =~= Seq::empty());
        assert(pieces(acc_w, num_w, ls, styled).take(0) =~= Seq::empty());
        assert(styled.take(0) =~= Seq::empty());
        assert(spread::flat(pieces(acc_w, num_w, ls, styled).take(0)) =~= Seq::empty());
        reveal(read);
    } else {
        lemma_in_step(acc_w, num_w, ls, stages, opts, n - 1);
        lemma_next(acc_w, num_w, ls, stages, opts, n - 1);
    }
}

/// Formatting under whatever contexts is idempotent, sorted or not, with or
/// without amounts filled in: what it writes has its lines in place and is
/// formatted to itself.
pub proof fn lemma_settles(s: Seq<char>, stages: Seq<Ctx>, opts: Options)
    requires
        all_clean(stages),
    ensures
        ({
            let out = fmt::format_stages_spec(s, stages, opts);
            &&& fmt::format_stages_spec(out, stages, opts) == out
            &&& fmt::arranged_spec(out, opts) == fmt::lines_spec(out)
        }),
{
    let raw = fmt::lines_spec(s);
    let src = if opts.sort {
        sort::sort_entries_spec(raw)
    } else {
        raw
    };
    tokens::lemma_lines_hold_no_newline(s);
    resort::lemma_sorted_without(raw);
    resort::lemma_sorted_blocks(raw);
    laws::lemma_normal_without(src);
    let ls = blank::normalize_spec(src);
    let n = ls.len() as int;
    let styled = fmt::styled_stages_spec(ls, stages, opts);
    let posts = fmt::all_posts(styled);
    let acc_w = fmt::account_width(posts);
    let num_w = fmt::number_width(posts);
    let ps = pieces(acc_w, num_w, ls, styled);
    lemma_class_fits(ls, stages, opts);
    lemma_pieces(acc_w, num_w, ls, styled, n);
    assert(ps.take(n) =~= ps);
    let ws = spread::flat(ps);
    assert(fmt::reflowed_spec(ls, styled) == ws);
    assert(spread::all_replace(ls, ps)) by {
        assert forall|i: int| 0 <= i < ls.len() implies spread::replaces(#[trigger] ls[i], ps[i]) by {
            assert(fits(
                read(ls.take(i), stages, opts),
                ls[i],
                styled[i],
                here(ls.take(i), stages),
                opts,
            ));
            lemma_written(
                acc_w,
                num_w,
                read(ls.take(i), stages, opts),
                ls[i],
                styled[i],
                here(ls.take(i), stages),
                opts,
            );
        }
    }
    spread::lemma_replaced(src, ps);
    lemma_pieces_without(acc_w, num_w, ls, stages, opts);
    tokens::lines_come_back(ws);
    lemma_in_step(acc_w, num_w, ls, stages, opts, n);
    lemma_close_again(acc_w, num_w, ls, stages, opts, n);
    assert(styled.take(n) =~= styled);
    let again = fmt::styled_stages_spec(ws, stages, opts);
    assert(again == refill::all_apart(styled)) by {
        reveal(read);
        reveal(here);
        reveal(ended);
    }
    refill::lemma_apart_posts(styled);
    assert(fmt::all_posts(again) == posts);
    lemma_fixed_upto(acc_w, num_w, ws, again, ws.len() as int);
    assert(ws.take(ws.len() as int) =~= ws);
    assert(fmt::reflowed_spec(ws, again) == ws);
}

// ---- declared styles ----

/// Where a line that is no posting leads does not depend on filling in.
proof fn lemma_same_lead(a: Classify, l: Seq<char>, ctx: Ctx, opts: Options)
    requires
    ensures
        ({
            let plain = a.step(l, ctx, Options { sort: false, explicit: false });
            let b = next(a, l, ctx, opts);
            b.opaque == plain.opaque && b.in_txn == plain.in_txn
        }),
{
    reveal(next);
}

/// What a line is written as declares what the line does.
proof fn lemma_piece_scan(
    acc_w: nat,
    num_w: nat,
    st: Scan,
    a: Classify,
    l: Seq<char>,
    c: Line,
    ctx: Ctx,
    opts: Options,
)
    requires
        settle::clean(fmt::marked(ctx, a.mark)),
        fits(a, l, c, ctx, opts),
        !l.contains('\n'),
        st.opaque == a.opaque,
        a.in_txn ==> st.block is None,
    ensures
        ({
            let p = fmt::format_line_spec(acc_w, num_w, l, c);
            let b = next(a, l, ctx, opts);
            &&& scanned::scan_on(st, p) == st.step(l)
            &&& st.step(l).opaque == b.opaque
            &&& b.in_txn ==> st.step(l).block is None
        }),
{
    let plain = Options { sort: false, explicit: false };
    let p = fmt::format_line_spec(acc_w, num_w, l, c);
    lemma_same_lead(a, l, ctx, opts);
    scanned::lemma_written_step(acc_w, num_w, st, a, l, ctx, plain);
    lemma_written(acc_w, num_w, a, l, c, ctx, opts);
    match c {
        Line::Post(qs) => {
            assert(posts_here(a, l)) by {
                reveal(fits);
            }
            assert forall|j: int| 0 <= j < p.len() implies lex::is_indented_spec(
                #[trigger] p[j],
            ) by {
                assert(shape::alike(l, p[j]));
            }
            scanned::lemma_indented_on(st, p);
            let one = seq![l];
            scanned::lemma_indented_on(st, one);
            assert(one.drop_last() =~= Seq::empty());
            assert(one.last() == l);
            assert(scanned::scan_on(st, one.drop_last()) == st);
        },
        _ => {
            assert(!posts_here(a, l) && c == other_class(a, l)) by {
                reveal(fits);
            }
            assert(laws::class_of(a, l, ctx, plain) == c);
            assert(p =~= seq![laws::line_of(acc_w, num_w, l, c)]);
            assert(p.drop_last() =~= Seq::empty());
            assert(p.last() == laws::line_of(acc_w, num_w, l, c));
            assert(scanned::scan_on(st, p.drop_last()) == st);
        },
    }
}

proof fn lemma_pieces_scan(
    acc_w: nat,
    num_w: nat,
    ls: Seq<Seq<char>>,
    stages: Seq<Ctx>,
    opts: Options,
    n: int,
)
    requires
        all_clean(stages),
        forall|i: int| 0 <= i < ls.len() ==> !(#[trigger] ls[i]).contains('\n'),
        0 <= n <= ls.len(),
    ensures
        ({
            let styled = fmt::styled_stages_spec(ls, stages, opts);
            let a = read(ls.take(n), stages, opts);
            let st = Scan::over(ls.take(n));
            &&& Scan::over(spread::flat(pieces(acc_w, num_w, ls, styled).take(n))) == st
            &&& st.opaque == a.opaque
            &&& a.in_txn ==> st.block is None
        }),
    decreases n,
{
    let styled = fmt::styled_stages_spec(ls, stages, opts);
    let ps = pieces(acc_w, num_w, ls, styled);
    if n == 0 {
        assert(ls.take(0) =~= Seq::empty());
        assert(ps.take(0) =~= Seq::empty());
        assert(spread::flat(ps.take(0)) =~= Seq::empty());
        reveal(read);
    } else {
        let k = n - 1;
        lemma_pieces_scan(acc_w, num_w, ls, stages, opts, k);
        lemma_class_fits(ls, stages, opts);
        lemma_read(ls, stages, opts, k);
        lemma_clean_here(ls.take(k), stages, opts);
        let a = read(ls.take(k), stages, opts);
        let st = Scan::over(ls.take(k));
        let ctx = here(ls.take(k), stages);
        assert(fits(a, ls[k], styled[k], ctx, opts));
        lemma_piece_scan(acc_w, num_w, st, a, ls[k], styled[k], ctx, opts);
        assert(ps.take(n) =~= ps.take(k) + seq![ps[k]]);
        spread::lemma_flat_concat(ps.take(k), seq![ps[k]]);
        spread::lemma_flat_one(ps[k]);
        let w = spread::flat(ps.take(k));
        scanned::lemma_over_is_on(w);
        scanned::lemma_over_is_on(w + ps[k]);
        scanned::lemma_on_concat(Scan::start(), w, ps[k]);
        assert(ls.take(n).drop_last() =~= ls.take(k));
        assert(ls.take(n).last() == ls[k]);
    }
}

/// The lines of a text as they are arranged before they are laid out.
pub proof fn lemma_arranged(s: Seq<char>, opts: Options)
    ensures
        ({
            let ls = fmt::arranged_spec(s, opts);
            &&& forall|i: int| 0 <= i < ls.len() ==> !(#[trigger] ls[i]).contains('\n')
            &&& fmt::scan_ctx_spec(ls) == fmt::scan_ctx_spec(fmt::lines_spec(s))
        }),
{
    let raw = fmt::lines_spec(s);
    tokens::lemma_lines_hold_no_newline(s);
    if opts.sort {
        let src = sort::sort_entries_spec(raw);
        resort::lemma_sorted_without(raw);
        resort::sorting_keeps_the_styles(raw);
        scanned::normalizing_keeps_the_styles(src);
        laws::lemma_normal_without(src);
    } else {
        scanned::normalizing_keeps_the_styles(raw);
        laws::lemma_normal_without(raw);
    }
}

/// Lines that are laid out with their amounts filled in declare what they did.
proof fn lemma_laid_out_styles(ls: Seq<Seq<char>>, stages: Seq<Ctx>, opts: Options)
    requires
        all_clean(stages),
        forall|i: int| 0 <= i < ls.len() ==> !(#[trigger] ls[i]).contains('\n'),
    ensures
        ({
            let ws = fmt::reflowed_spec(ls, fmt::styled_stages_spec(ls, stages, opts));
            &&& fmt::lines_spec(fmt::unlines_spec(ws)) == ws
            &&& fmt::scan_ctx_spec(ws) == fmt::scan_ctx_spec(ls)
        }),
{
    let n = ls.len() as int;
    let styled = fmt::styled_stages_spec(ls, stages, opts);
    let posts = fmt::all_posts(styled);
    let acc_w = fmt::account_width(posts);
    let num_w = fmt::number_width(posts);
    let ps = pieces(acc_w, num_w, ls, styled);
    lemma_pieces(acc_w, num_w, ls, styled, n);
    assert(ps.take(n) =~= ps);
    assert(ls.take(n) =~= ls);
    lemma_pieces_scan(acc_w, num_w, ls, stages, opts, n);
    lemma_pieces_without(acc_w, num_w, ls, stages, opts);
    tokens::lines_come_back(spread::flat(ps));
}

/// Formatting under whatever contexts leaves the declared styles of a text
/// alone.
proof fn lemma_styles_kept(s: Seq<char>, stages: Seq<Ctx>, opts: Options)
    requires
        all_clean(stages),
    ensures
        fmt::scan_ctx_spec(fmt::lines_spec(fmt::format_stages_spec(s, stages, opts)))
            == fmt::scan_ctx_spec(fmt::lines_spec(s)),
{
    lemma_arranged(s, opts);
    lemma_laid_out_styles(fmt::arranged_spec(s, opts), stages, opts);
}

/// Formatting that fills in amounts is idempotent: `--explicit` writes out what
/// a text leaves implied, and formats what it has written to itself, sorted or
/// not, whatever the styles are.
pub proof fn filling_in_is_idempotent(s: Seq<char>, ctx: Ctx, opts: Options)
    requires
        opts.explicit,
        settle::clean(ctx),
    ensures
        fmt::format_spec(fmt::format_spec(s, ctx, opts), ctx, opts) == fmt::format_spec(
            s,
            ctx,
            opts,
        ),
{
    let out = fmt::format_spec(s, ctx, opts);
    fmt::lemma_one_stage(fmt::arranged_spec(s, opts), ctx, opts);
    fmt::lemma_one_stage(fmt::arranged_spec(out, opts), ctx, opts);
    lemma_settles(s, seq![ctx], opts);
}

/// Filling in amounts leaves the declared styles of a text alone.
pub proof fn filling_in_keeps_the_styles(s: Seq<char>, ctx: Ctx, opts: Options)
    requires
        opts.explicit,
        settle::clean(ctx),
    ensures
        fmt::scan_ctx_spec(fmt::lines_spec(fmt::format_spec(s, ctx, opts))) == fmt::scan_ctx_spec(
            fmt::lines_spec(s),
        ),
{
    fmt::lemma_one_stage(fmt::arranged_spec(s, opts), ctx, opts);
    lemma_styles_kept(s, seq![ctx], opts);
}

/// Formatting that fills in amounts by the styles that a text declares itself
/// is idempotent, on every text, sorted or not.
pub proof fn filling_in_by_own_styles_is_idempotent(s: Seq<char>, opts: Options)
    requires
        opts.explicit,
    ensures
        ({
            let out = fmt::format_spec(s, fmt::scan_ctx_spec(fmt::lines_spec(s)), opts);
            fmt::format_spec(out, fmt::scan_ctx_spec(fmt::lines_spec(out)), opts) == out
        }),
{
    let ctx = fmt::scan_ctx_spec(fmt::lines_spec(s));
    scanned::lemma_scanned_clean(fmt::lines_spec(s));
    filling_in_is_idempotent(s, ctx, opts);
    filling_in_keeps_the_styles(s, ctx, opts);
}

// ---- files of a tree ----

/// Whether every context that a file inherits is clean.
pub open spec fn clean_inheritance(inherited: Seq<(usize, Ctx)>) -> bool {
    forall|k: int| 0 <= k < inherited.len() ==> settle::clean((#[trigger] inherited[k]).1)
}

proof fn lemma_overlaid_clean(under: Ctx, over: Ctx)
    requires
        settle::clean(under),
        settle::clean(over),
    ensures
        settle::clean(tree::overlaid(under, over)),
{
    let ctx = tree::overlaid(under, over);
    assert forall|name: Seq<char>| ctx.styles.dom().contains(name) implies numerals::punctuated(
        #[trigger] ctx.styles[name],
    ) by {
        if over.styles.dom().contains(name) {
            assert(ctx.styles[name] == over.styles[name]);
        } else {
            assert(ctx.styles[name] == under.styles[name]);
        }
    }
}

pub proof fn lemma_merged_clean(inherited: Seq<(usize, Ctx)>)
    requires
        clean_inheritance(inherited),
    ensures
        settle::clean(tree::merged_spec(inherited)),
    decreases inherited.len(),
{
    if inherited.len() > 0 {
        let f = inherited.drop_last();
        assert forall|k: int| 0 <= k < f.len() implies settle::clean((#[trigger] f[k]).1) by {
            assert(f[k] == inherited[k]);
        }
        lemma_merged_clean(f);
        assert(settle::clean(inherited[inherited.len() - 1].1));
        lemma_overlaid_clean(tree::merged_spec(f), inherited.last().1);
    }
}

/// What a file is formatted under is clean where what it inherits is.
pub proof fn lemma_stages_clean(ls: Seq<Seq<char>>, inherited: Seq<(usize, Ctx)>)
    requires
        clean_inheritance(inherited),
    ensures
        all_clean(tree::stages_spec(fmt::scan_ctx_spec(ls), inherited)),
{
    let own = fmt::scan_ctx_spec(ls);
    let stages = tree::stages_spec(own, inherited);
    scanned::lemma_scanned_clean(ls);
    assert forall|k: int| 0 <= k < stages.len() implies settle::clean(#[trigger] stages[k]) by {
        if inherited.len() == 0 {
            assert(settle::clean(Ctx::bare()));
            lemma_overlaid_clean(Ctx::bare(), own);
        } else {
            let front = inherited.take(k + 1);
            assert forall|j: int| 0 <= j < front.len() implies settle::clean(
                (#[trigger] front[j]).1,
            ) by {
                assert(front[j] == inherited[j]);
            }
            lemma_merged_clean(front);
            lemma_overlaid_clean(tree::merged_spec(front), own);
        }
    }
}

/// A file that stands in an include tree is formatted to itself once it has
/// been formatted, sorted or not, with or without amounts filled in, whatever
/// the tree brings in ahead of it and by its own `include` lines.
pub proof fn a_file_in_a_tree_settles(
    s: Seq<char>,
    inherited: Seq<(usize, Ctx)>,
    opts: Options,
)
    requires
        clean_inheritance(inherited),
    ensures
        ({
            let out = tree::format_at_spec(s, inherited, opts);
            &&& tree::format_at_spec(out, inherited, opts) == out
            &&& fmt::arranged_spec(out, opts) == fmt::lines_spec(out)
        }),
{
    let stages = tree::stages_spec(fmt::scan_ctx_spec(fmt::lines_spec(s)), inherited);
    lemma_stages_clean(fmt::lines_spec(s), inherited);
    lemma_settles(s, stages, opts);
    lemma_styles_kept(s, stages, opts);
}

} // verus!
