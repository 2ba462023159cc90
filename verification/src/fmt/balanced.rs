//! The transactions of a text balance once their amounts are filled in.

use vstd::prelude::*;
use crate::amount::Ctx;
use crate::fmt::{self, Options};
use crate::fmt::explicit::{self, Group, Line};
use crate::fmt::filled;
use crate::fmt::laws;
use crate::fmt::posting::{self, Post};
use crate::fmt::refill;
use crate::fmt::reread;
use crate::fmt::spread;
use crate::fmt::sums;
use crate::lex;
use crate::restyle::Places;

verus! {

/// Whether lines are a transaction of a text: a header outside any `comment`
/// block, and the indented lines that follow it.
pub open spec fn is_txn(ls: Seq<Seq<char>>, h: int, e: int) -> bool {
    &&& 0 <= h < e <= ls.len()
    &&& !fmt::passed(ls.take(h)).1
    &&& lex::opens_txn_spec(ls[h])
    &&& forall|i: int| h < i < e ==> lex::is_indented_spec(#[trigger] ls[i])
    &&& e < ls.len() ==> !lex::is_indented_spec(ls[e])
}

/// The context in effect behind lines, with the decimal mark in effect.
pub open spec fn ctx_behind(ls: Seq<Seq<char>>, stages: Seq<Ctx>, opts: Options) -> Ctx {
    fmt::marked(
        fmt::stage(stages, fmt::passed(ls).0),
        fmt::Classify::over_stages(ls, stages, opts).mark,
    )
}

/// The postings of a transaction as they stand in a text, in their styles.
pub open spec fn posts_of(ls: Seq<Seq<char>>, h: int, e: int, ctx: Ctx) -> Seq<Post> {
    ls.subrange(h + 1, e).map_values(
        |l: Seq<char>|
            posting::restyle_post_spec(
                posting::parse_posting_spec(l),
                ctx,
                Places::AtLeastDeclared,
            ),
    )
}

/// Written lines as the postings they read as.
pub open spec fn read_back(ws: Seq<Seq<char>>) -> Seq<Post> {
    ws.map_values(|w: Seq<char>| posting::parse_posting_spec(w))
}

/// What each line of a text is written as.
pub open spec fn written(ls: Seq<Seq<char>>, stages: Seq<Ctx>, opts: Options) -> Seq<Seq<Seq<char>>> {
    let styled = fmt::styled_stages_spec(ls, stages, opts);
    let posts = fmt::all_posts(styled);
    filled::pieces(fmt::account_width(posts), fmt::number_width(posts), ls, styled)
}

/// Where the lines of a transaction lead.
proof fn lemma_in_txn(
    ls: Seq<Seq<char>>,
    h: int,
    e: int,
    n: int,
    stages: Seq<Ctx>,
    opts: Options,
)
    requires
        filled::all_clean(stages),
        forall|i: int| 0 <= i < ls.len() ==> !(#[trigger] ls[i]).contains('\n'),
        is_txn(ls, h, e),
        h < n <= e,
    ensures
        ({
            let a = filled::read(ls.take(n), stages, opts);
            &&& a.in_txn
            &&& !a.opaque
            &&& a.txn matches Some((s, m)) && s == h + 1 && m == a.mark
            &&& a.out.len() == n
            &&& forall|i: int|
                h < i < n ==> #[trigger] a.out[i] == Line::Post(
                    seq![
                        filled::restyled(
                            ls[i],
                            fmt::marked(filled::here(ls.take(n), stages), a.mark),
                            opts,
                        ),
                    ],
                )
        }),
    decreases n,
{
    let k = n - 1;
    let b = filled::read(ls.take(k), stages, opts);
    let a = filled::read(ls.take(n), stages, opts);
    filled::lemma_read(ls, stages, opts, k);
    filled::lemma_sound(ls, stages, opts, k);
    filled::lemma_sound(ls, stages, opts, n);
    let ctx = filled::here(ls.take(k), stages);
    if n == h + 1 {
        assert(!filled::posts_here(b, ls[k])) by {
            if lex::is_indented_spec(ls[k]) {
                laws::lemma_indented_kind(ls[k]);
            }
        }
        assert(!lex::opens_block_spec(ls[k])) by {
            reveal_strlit("comment");
            reread::lemma_rstrip(ls[k]);
            if lex::opens_block_spec(ls[k]) {
                assert(lex::rstrip_spec(ls[k])[0] == ls[k][0]);
            }
        }
        filled::lemma_next_other(b, ls[k], ctx, opts);
        assert(a.out.len() == n);
    } else {
        lemma_in_txn(ls, h, e, k, stages, opts);
        assert(lex::is_indented_spec(ls[k]));
        laws::lemma_indented_kind(ls[k]);
        filled::lemma_next_post(b, ls[k], ctx, opts);
        assert(a.out[k] is Post);
        assert(filled::here(ls.take(k), stages) == filled::here(ls.take(n), stages));
        assert forall|i: int| h < i < n implies #[trigger] a.out[i] == Line::Post(
            seq![
                filled::restyled(
                    ls[i],
                    fmt::marked(filled::here(ls.take(n), stages), a.mark),
                    opts,
                ),
            ],
        ) by {
            if i < k {
                assert(a.out[i] == b.out[i]);
            }
        }
    }
}

/// The lines of a transaction before anything is filled in.
proof fn lemma_txn_firm(ls: Seq<Seq<char>>, h: int, e: int, stages: Seq<Ctx>, opts: Options)
    requires
        opts.explicit,
        filled::all_clean(stages),
        forall|i: int| 0 <= i < ls.len() ==> !(#[trigger] ls[i]).contains('\n'),
        is_txn(ls, h, e),
    ensures
        ({
            let a = filled::read(ls.take(e), stages, opts);
            let ctx = fmt::marked(filled::here(ls.take(e), stages), a.mark);
            let txn = a.out.skip(h + 1);
            &&& refill::all_uniform(txn)
            &&& forall|i: int|
                0 <= i < txn.len() ==> refill::firm_line(
                    #[trigger] txn[i],
                    ctx,
                    Places::AtLeastDeclared,
                )
            &&& forall|i: int| 0 <= i < txn.len() ==> (#[trigger] txn[i]) is Post
            &&& fmt::all_posts(txn) == posts_of(ls, h, e, ctx)
        }),
{
    let a = filled::read(ls.take(e), stages, opts);
    let ctx = fmt::marked(filled::here(ls.take(e), stages), a.mark);
    let txn = a.out.skip(h + 1);
    lemma_in_txn(ls, h, e, e, stages, opts);
    filled::lemma_sound(ls, stages, opts, e);
    assert forall|i: int| 0 <= i < txn.len() implies refill::uniform(#[trigger] txn[i])
        && refill::firm_line(txn[i], ctx, Places::AtLeastDeclared) && txn[i] is Post by {
        let k = h + 1 + i;
        assert(txn[i] == a.out[k]);
        assert(a.out[k] is Post);
        assert(filled::fits(
            filled::read(ls.take(k), stages, opts),
            ls[k],
            a.out[k],
            filled::here(ls.take(k), stages),
            opts,
        ));
        reveal(filled::fits);
    }
    assert forall|i: int| 0 <= i < txn.len() implies #[trigger] txn[i] == Line::Post(
        seq![filled::restyled(ls[h + 1 + i], ctx, opts)],
    ) by {
        assert(txn[i] == a.out[h + 1 + i]);
    }
    lemma_singles(txn, ls, h, e, ctx, opts);
}

/// The context and the closed classes of a transaction.
proof fn lemma_txn_closed(ls: Seq<Seq<char>>, h: int, e: int, stages: Seq<Ctx>, opts: Options)
    requires
        opts.explicit,
        filled::read(ls.take(e), stages, opts).txn matches Some((s, m)) && s == h + 1 && m
            == filled::read(ls.take(e), stages, opts).mark,
    ensures
        ({
            let a = filled::read(ls.take(e), stages, opts);
            let at = filled::here(ls.take(e), stages);
            let ctx = fmt::marked(at, a.mark);
            &&& ctx == ctx_behind(ls.take(e), stages, opts)
            &&& filled::ended(a, at, opts) == a.out.take(h + 1) + explicit::fill_spec(
                a.out.skip(h + 1),
                ctx,
            )
        }),
{
    reveal(filled::here);
    reveal(filled::read);
    reveal(filled::ended);
}

/// The classes of a transaction are those of its postings, filled in.
proof fn lemma_styled_txn(ls: Seq<Seq<char>>, h: int, e: int, stages: Seq<Ctx>, opts: Options)
    requires
        opts.explicit,
        filled::all_clean(stages),
        forall|i: int| 0 <= i < ls.len() ==> !(#[trigger] ls[i]).contains('\n'),
        is_txn(ls, h, e),
    ensures
        ({
            let a = filled::read(ls.take(e), stages, opts);
            let ctx = fmt::marked(filled::here(ls.take(e), stages), a.mark);
            let txn = a.out.skip(h + 1);
            &&& ctx == ctx_behind(ls.take(e), stages, opts)
            &&& fmt::styled_stages_spec(ls, stages, opts).len() == ls.len()
            &&& fmt::styled_stages_spec(ls, stages, opts).subrange(h + 1, e)
                == explicit::fill_spec(txn, ctx)
        }),
{
    let a = filled::read(ls.take(e), stages, opts);
    let at = filled::here(ls.take(e), stages);
    let ctx = fmt::marked(at, a.mark);
    let styled = fmt::styled_stages_spec(ls, stages, opts);
    lemma_in_txn(ls, h, e, e, stages, opts);
    lemma_txn_closed(ls, h, e, stages, opts);
    filled::lemma_for_good(ls, stages, opts, e);
    let front = a.out.take(h + 1);
    let full = explicit::fill_spec(a.out.skip(h + 1), ctx);
    assert(styled.take(e) == front + full);
    assert((front + full).skip(h + 1) =~= full);
    assert(styled.subrange(h + 1, e) =~= styled.take(e).skip(h + 1));
}

proof fn lemma_singles(
    txn: Seq<Line>,
    ls: Seq<Seq<char>>,
    h: int,
    e: int,
    ctx: Ctx,
    opts: Options,
)
    requires
        opts.explicit,
        0 <= h < e <= ls.len(),
        txn.len() == e - h - 1,
        forall|i: int|
            0 <= i < txn.len() ==> #[trigger] txn[i] == Line::Post(
                seq![filled::restyled(ls[h + 1 + i], ctx, opts)],
            ),
    ensures
        fmt::all_posts(txn) == posts_of(ls, h, e, ctx),
    decreases txn.len(),
{
    let ps = posts_of(ls, h, e, ctx);
    if txn.len() > 0 {
        let f = txn.drop_last();
        assert forall|i: int| 0 <= i < f.len() implies #[trigger] f[i] == Line::Post(
            seq![filled::restyled(ls[h + 1 + i], ctx, opts)],
        ) by {
            assert(f[i] == txn[i]);
        }
        lemma_singles(f, ls, h, e - 1, ctx, opts);
        let k = txn.len() - 1;
        assert(txn[k].postings() == seq![filled::restyled(ls[e - 1], ctx, opts)]);
        assert(ps[k] == filled::restyled(ls[e - 1], ctx, opts)) by {
            reveal(filled::restyled);
        }
        assert(ps =~= posts_of(ls, h, e - 1, ctx).push(ps[k]));
    } else {
        assert(ps =~= Seq::empty());
    }
}

/// What postings are written as reads as those postings.
proof fn lemma_read_back(
    acc_w: nat,
    num_w: nat,
    ls: Seq<Seq<char>>,
    styled: Seq<Line>,
    h: int,
    e: int,
    ctx: Ctx,
)
    requires
        0 <= h <= e <= ls.len(),
        styled.len() == ls.len(),
        forall|i: int|
            h <= i < e ==> (#[trigger] styled[i]) is Post && refill::firm_line(
                styled[i],
                ctx,
                Places::AtLeastDeclared,
            ),
    ensures
        read_back(spread::flat(filled::pieces(acc_w, num_w, ls, styled).subrange(h, e)))
            == fmt::all_posts(styled.subrange(h, e)),
    decreases e - h,
{
    let ps = filled::pieces(acc_w, num_w, ls, styled);
    let out = read_back(spread::flat(ps.subrange(h, e)));
    if h == e {
        assert(ps.subrange(h, e) =~= Seq::empty());
        assert(styled.subrange(h, e) =~= Seq::empty());
        assert(out =~= Seq::empty());
    } else {
        let k = e - 1;
        lemma_read_back(acc_w, num_w, ls, styled, h, k, ctx);
        assert(ps.subrange(h, e) =~= ps.subrange(h, k) + seq![ps[k]]);
        spread::lemma_flat_concat(ps.subrange(h, k), seq![ps[k]]);
        spread::lemma_flat_one(ps[k]);
        assert(styled.subrange(h, e).drop_last() =~= styled.subrange(h, k));
        assert(styled.subrange(h, e).last() == styled[k]);
        let qs = styled[k].postings();
        assert(styled[k] is Post);
        assert(ps[k] == fmt::render_all_spec(acc_w, num_w, qs));
        let mine = read_back(ps[k]);
        assert(mine =~= qs) by {
            assert forall|j: int| 0 <= j < qs.len() implies mine[j] == qs[j] by {
                assert(refill::firm(qs[j], ctx, Places::AtLeastDeclared));
                reread::lemma_laid_out(acc_w, num_w, qs[j]);
            }
        }
        assert(out =~= read_back(spread::flat(ps.subrange(h, k))) + mine);
    }
}

/// The lines that a transaction is written as read as its postings, filled in.
proof fn lemma_written_txn(ls: Seq<Seq<char>>, h: int, e: int, stages: Seq<Ctx>, opts: Options)
    requires
        opts.explicit,
        filled::all_clean(stages),
        forall|i: int| 0 <= i < ls.len() ==> !(#[trigger] ls[i]).contains('\n'),
        is_txn(ls, h, e),
    ensures
        read_back(spread::flat(written(ls, stages, opts).subrange(h + 1, e))) == fmt::all_posts(
            explicit::fill_spec(
                filled::read(ls.take(e), stages, opts).out.skip(h + 1),
                ctx_behind(ls.take(e), stages, opts),
            ),
        ),
{
    let styled = fmt::styled_stages_spec(ls, stages, opts);
    let posts = fmt::all_posts(styled);
    let acc_w = fmt::account_width(posts);
    let num_w = fmt::number_width(posts);
    lemma_styled_txn(ls, h, e, stages, opts);
    lemma_txn_firm(ls, h, e, stages, opts);
    let ctx = ctx_behind(ls.take(e), stages, opts);
    let txn = filled::read(ls.take(e), stages, opts).out.skip(h + 1);
    lemma_filled_firm(txn, ctx);
    lemma_run_read_back(acc_w, num_w, ls, styled, h, e, explicit::fill_spec(txn, ctx), ctx);
}

proof fn lemma_run_read_back(
    acc_w: nat,
    num_w: nat,
    ls: Seq<Seq<char>>,
    styled: Seq<Line>,
    h: int,
    e: int,
    full: Seq<Line>,
    ctx: Ctx,
)
    requires
        0 <= h < e <= ls.len(),
        styled.len() == ls.len(),
        styled.subrange(h + 1, e) == full,
        forall|i: int|
            0 <= i < full.len() ==> (#[trigger] full[i]) is Post && refill::firm_line(
                full[i],
                ctx,
                Places::AtLeastDeclared,
            ),
    ensures
        read_back(spread::flat(filled::pieces(acc_w, num_w, ls, styled).subrange(h + 1, e)))
            == fmt::all_posts(full),
{
    assert forall|i: int| h + 1 <= i < e implies (#[trigger] styled[i]) is Post
        && refill::firm_line(styled[i], ctx, Places::AtLeastDeclared) by {
        let j = i - h - 1;
        assert(styled.subrange(h + 1, e)[j] == styled[i]);
        assert(full[j] is Post);
    }
    lemma_read_back(acc_w, num_w, ls, styled, h + 1, e, ctx);
}

/// Filled-in lines stay as they are.
proof fn lemma_filled_firm(txn: Seq<Line>, ctx: Ctx)
    requires
        refill::all_uniform(txn),
        forall|i: int|
            0 <= i < txn.len() ==> refill::firm_line(
                #[trigger] txn[i],
                ctx,
                Places::AtLeastDeclared,
            ),
        forall|i: int| 0 <= i < txn.len() ==> (#[trigger] txn[i]) is Post,
    ensures
        ({
            let full = explicit::fill_spec(txn, ctx);
            &&& full.len() == txn.len()
            &&& forall|i: int|
                0 <= i < full.len() ==> (#[trigger] full[i]) is Post && refill::firm_line(
                    full[i],
                    ctx,
                    Places::AtLeastDeclared,
                )
        }),
{
    let mid = explicit::fill_group_spec(txn, ctx, Group::Real);
    let full = explicit::fill_spec(txn, ctx);
    refill::lemma_fill_group(txn, ctx, Group::Real);
    refill::lemma_fill_group(mid, ctx, Group::Balanced);
    assert forall|i: int| 0 <= i < full.len() implies (#[trigger] full[i]) is Post
        && refill::firm_line(full[i], ctx, Places::AtLeastDeclared) by {
        assert((full[i] is Post) == (mid[i] is Post));
        assert((mid[i] is Post) == (txn[i] is Post));
        assert(txn[i] is Post);
    }
}

/// A text is what its lines are written as.
proof fn lemma_written_text(text: Seq<char>, stages: Seq<Ctx>, opts: Options)
    ensures
        fmt::format_stages_spec(text, stages, opts) == fmt::unlines_spec(
            spread::flat(written(fmt::arranged_spec(text, opts), stages, opts)),
        ),
{
    let ls = fmt::arranged_spec(text, opts);
    let styled = fmt::styled_stages_spec(ls, stages, opts);
    let posts = fmt::all_posts(styled);
    let n = ls.len() as int;
    filled::lemma_pieces(fmt::account_width(posts), fmt::number_width(posts), ls, styled, n);
    assert(written(ls, stages, opts).take(n) =~= written(ls, stages, opts));
}

/// `--explicit` balances what it fills in. Of every transaction of a text, and
/// of its real postings as of its balanced virtual ones: where one of them waited
/// for its amount and none does any longer in the lines that are written for it,
/// the amounts that those lines read as add up to zero in every commodity. All
/// of them count, whatever comments they carry. What has to hold for it is that
/// they can be added up without rounding, and that the posting that waited names
/// no cost.
pub proof fn a_filled_in_transaction_balances(
    text: Seq<char>,
    stages: Seq<Ctx>,
    opts: Options,
    h: int,
    e: int,
    g: Group,
    name: Seq<char>,
    s: nat,
    t: nat,
)
    requires
        opts.explicit,
        filled::all_clean(stages),
        is_txn(fmt::arranged_spec(text, opts), h, e),
        g == Group::Real || g == Group::Balanced,
        s <= t,
    ensures
        ({
            let ls = fmt::arranged_spec(text, opts);
            let ctx = ctx_behind(ls.take(e), stages, opts);
            let src = sums::of_group(posts_of(ls, h, e, ctx), g);
            let out = written(ls, stages, opts);
            let dst = sums::of_group(
                read_back(spread::flat(out.subrange(h + 1, e))),
                g,
            );
            &&& fmt::format_stages_spec(text, stages, opts) == fmt::unlines_spec(spread::flat(out))
            &&& sums::addable(src, g, ctx, s) && sums::all_uncosted(src) && sums::some_wait(src)
                && !sums::some_wait(dst) && sums::all_posted(dst, g, ctx, t) ==> sums::total(
                dst,
                g,
                ctx,
                name,
                t,
            ) == 0
        }),
{
    let ls = fmt::arranged_spec(text, opts);
    filled::lemma_arranged(text, opts);
    lemma_written_text(text, stages, opts);
    lemma_styled_txn(ls, h, e, stages, opts);
    lemma_txn_firm(ls, h, e, stages, opts);
    lemma_written_txn(ls, h, e, stages, opts);
    let ctx = ctx_behind(ls.take(e), stages, opts);
    let txn = filled::read(ls.take(e), stages, opts).out.skip(h + 1);
    let src = sums::of_group(posts_of(ls, h, e, ctx), g);
    let dst = sums::of_group(
        read_back(spread::flat(written(ls, stages, opts).subrange(h + 1, e))),
        g,
    );
    if sums::addable(src, g, ctx, s) && sums::all_uncosted(src) && sums::some_wait(src)
        && !sums::some_wait(dst) && sums::all_posted(dst, g, ctx, t) {
        sums::a_filled_in_group_adds_up(txn, ctx, g, name, s, t);
    }
}

// ---- the styles in effect ----

/// Only an `include` line outside a `comment` block brings the next context in.
pub proof fn only_an_include_line_brings_a_context(ls: Seq<Seq<char>>, l: Seq<char>)
    ensures
        fmt::passed(ls.push(l)).0 == fmt::passed(ls).0 + (if !fmt::passed(ls).1
            && !lex::opens_block_spec(l) && !lex::is_indented_spec(l) && lex::directive_arg_spec(
            l,
            "include"@,
        ) is Some {
            1int
        } else {
            0
        }),
        fmt::passed(ls.push(l)).1 == (if fmt::passed(ls).1 {
            !lex::closes_block_spec(l)
        } else {
            lex::opens_block_spec(l)
        }),
        fmt::passed(Seq::empty()) == (0int, false),
{
    assert(ls.push(l).drop_last() =~= ls);
    assert(ls.push(l).last() == l);
}

/// Every posting of a transaction is shown as it is read, in the styles that are
/// in effect where the transaction stands.
pub proof fn a_posting_is_shown_in_the_styles_in_effect(
    ls: Seq<Seq<char>>,
    h: int,
    e: int,
    i: int,
    stages: Seq<Ctx>,
    sort: bool,
)
    requires
        filled::all_clean(stages),
        forall|i: int| 0 <= i < ls.len() ==> !(#[trigger] ls[i]).contains('\n'),
        is_txn(ls, h, e),
        h < i < e,
    ensures
        fmt::styled_stages_spec(ls, stages, Options { sort, explicit: false })[i] == Line::Post(
            seq![
                posting::restyle_post_spec(
                    posting::parse_posting_spec(ls[i]),
                    ctx_behind(ls.take(e), stages, Options { sort, explicit: false }),
                    Places::AsWritten,
                ),
            ],
        ),
{
    let opts = Options { sort, explicit: false };
    let a = filled::read(ls.take(e), stages, opts);
    let at = filled::here(ls.take(e), stages);
    let styled = fmt::styled_stages_spec(ls, stages, opts);
    lemma_in_txn(ls, h, e, e, stages, opts);
    filled::lemma_for_good(ls, stages, opts, e);
    assert(filled::ended(a, at, opts) == a.out) by {
        reveal(filled::ended);
    }
    assert(styled.take(e)[i] == styled[i]);
    assert(fmt::marked(at, a.mark) == ctx_behind(ls.take(e), stages, opts)) by {
        reveal(filled::here);
        reveal(filled::read);
    }
    assert(a.out[i] == Line::Post(
        seq![filled::restyled(ls[i], fmt::marked(at, a.mark), opts)],
    ));
    reveal(filled::restyled);
}

} // verus!
