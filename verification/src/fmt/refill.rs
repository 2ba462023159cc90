//! Why filling in amounts is done once.

use vstd::prelude::*;
use crate::amount::{self, Ctx};
use crate::decimal::Num;
use crate::fmt;
use crate::fmt::balance;
use crate::fmt::explicit::{self, Group, Line};
use crate::fmt::posting::{self, Post};
use crate::fmt::reread;
use crate::fmt::settle;
use crate::fmt::steady;
use crate::lex;
use crate::restyle::{self, Places};
use crate::text::{self, CharClass};
use crate::tokens;

verus! {

// ---- what a group of postings comes to ----

/// How many postings of a group wait for an amount.
pub open spec fn waiting_in(ps: Seq<Post>, g: Group) -> nat
    decreases ps.len(),
{
    if ps.len() == 0 {
        0
    } else {
        waiting_in(ps.drop_last(), g) + if g.holds_spec(ps.last()) && ps.last().waits() {
            1nat
        } else {
            0nat
        }
    }
}

/// How many postings of a group carry nothing at all.
pub open spec fn bare_in(ps: Seq<Post>, g: Group) -> nat
    decreases ps.len(),
{
    if ps.len() == 0 {
        0
    } else {
        bare_in(ps.drop_last(), g) + if g.holds_spec(ps.last()) && ps.last() is Bare {
            1nat
        } else {
            0nat
        }
    }
}

/// The amounts of the postings of a group that wait for none.
pub open spec fn texts_in(ps: Seq<Post>, g: Group) -> Seq<Seq<char>>
    decreases ps.len(),
{
    if ps.len() == 0 {
        Seq::empty()
    } else {
        texts_in(ps.drop_last(), g) + if g.holds_spec(ps.last()) && !ps.last().waits() {
            explicit::amount_texts_spec(seq![ps.last()])
        } else {
            Seq::empty()
        }
    }
}

pub proof fn lemma_concat(a: Seq<Post>, b: Seq<Post>, g: Group)
    ensures
        waiting_in(a + b, g) == waiting_in(a, g) + waiting_in(b, g),
        bare_in(a + b, g) == bare_in(a, g) + bare_in(b, g),
        texts_in(a + b, g) == texts_in(a, g) + texts_in(b, g),
        explicit::amount_texts_spec(a + b) == explicit::amount_texts_spec(a)
            + explicit::amount_texts_spec(b),
    decreases b.len(),
{
    if b.len() == 0 {
        assert(a + b =~= a);
        assert(texts_in(a, g) + texts_in(b, g) =~= texts_in(a, g));
        assert(explicit::amount_texts_spec(a) + explicit::amount_texts_spec(b)
            =~= explicit::amount_texts_spec(a));
    } else {
        lemma_concat(a, b.drop_last(), g);
        assert((a + b).drop_last() =~= a + b.drop_last());
        assert((a + b).last() == b.last());
        assert(texts_in(a + b, g) =~= texts_in(a, g) + texts_in(b, g));
        assert(explicit::amount_texts_spec(a + b) =~= explicit::amount_texts_spec(a)
            + explicit::amount_texts_spec(b));
    }
}

/// The amounts that are missing of a group, if they can be worked out.
pub open spec fn due(ps: Seq<Post>, g: Group, ctx: Ctx) -> Option<Seq<Seq<char>>> {
    match amount::sums_spec(texts_in(ps, g), ctx, false) {
        None => None,
        Some(sums) => explicit::remainder_spec(sums, ctx, texts_in(ps, g)),
    }
}

/// Whether there is nothing to fill in for a group.
pub open spec fn idle(ps: Seq<Post>, g: Group, ctx: Ctx) -> bool {
    ||| waiting_in(ps, g) != 1
    ||| due(ps, g, ctx) is None
    ||| bare_in(ps, g) == 0 && due(ps, g, ctx)->0.len() != 1
}

// ---- lines ----

/// Whether a line holds postings of one account, and one that waits for an
/// amount only by itself.
pub open spec fn uniform(c: Line) -> bool {
    c matches Line::Post(ps) ==> {
        &&& ps.len() > 0
        &&& forall|i: int| 0 <= i < ps.len() ==> (#[trigger] ps[i]).account() == ps[0].account()
        &&& ps.len() > 1 ==> forall|i: int| 0 <= i < ps.len() ==> !(#[trigger] ps[i]).waits()
    }
}

pub open spec fn all_uniform(txn: Seq<Line>) -> bool {
    forall|i: int| 0 <= i < txn.len() ==> uniform(#[trigger] txn[i])
}

/// What the postings of one line come to.
pub proof fn lemma_line(c: Line, g: Group)
    requires
        uniform(c),
    ensures
        ({
            let ps = c.postings();
            &&& c.is_in(g) && c.waits() ==> ps.len() == 1 && g.holds_spec(ps[0]) && ps[0].waits()
                && waiting_in(ps, g) == 1 && texts_in(ps, g) == Seq::<Seq<char>>::empty()
                && bare_in(ps, g) == (if ps[0] is Bare {
                1nat
            } else {
                0nat
            })
            &&& c.is_in(g) && !c.waits() ==> waiting_in(ps, g) == 0 && bare_in(ps, g) == 0
                && texts_in(ps, g) == explicit::amount_texts_spec(ps)
            &&& !c.is_in(g) ==> waiting_in(ps, g) == 0 && bare_in(ps, g) == 0 && texts_in(ps, g)
                == Seq::<Seq<char>>::empty()
        }),
{
    let ps = c.postings();
    if c.is_in(g) && c.waits() {
        let i = choose|i: int| 0 <= i < ps.len() && g.holds_spec(#[trigger] ps[i]);
        let j = choose|j: int| 0 <= j < ps.len() && (#[trigger] ps[j]).waits();
        assert(!ps[j].waits() || ps.len() == 1);
        assert(ps[0] == ps[i]);
        assert(ps.drop_last() =~= Seq::empty());
        assert(ps.last() == ps[0]);
        reveal_with_fuel(waiting_in, 2);
        reveal_with_fuel(bare_in, 2);
        assert(texts_in(ps, g) =~= Seq::empty()) by {
            reveal_with_fuel(texts_in, 2);
        }
    } else if c.is_in(g) {
        let i = choose|i: int| 0 <= i < ps.len() && g.holds_spec(#[trigger] ps[i]);
        assert forall|j: int| 0 <= j < ps.len() implies g.holds_spec(#[trigger] ps[j])
            && !ps[j].waits() by {
            assert(ps[j].account() == ps[0].account());
            assert(ps[i].account() == ps[0].account());
        }
        lemma_all_in(ps, g);
    } else {
        lemma_none_in(ps, g);
    }
}

proof fn lemma_all_in(ps: Seq<Post>, g: Group)
    requires
        forall|j: int| 0 <= j < ps.len() ==> g.holds_spec(#[trigger] ps[j]) && !ps[j].waits(),
    ensures
        waiting_in(ps, g) == 0,
        bare_in(ps, g) == 0,
        texts_in(ps, g) == explicit::amount_texts_spec(ps),
    decreases ps.len(),
{
    if ps.len() > 0 {
        let f = ps.drop_last();
        assert forall|j: int| 0 <= j < f.len() implies g.holds_spec(#[trigger] f[j])
            && !f[j].waits() by {
            assert(f[j] == ps[j]);
        }
        lemma_all_in(f, g);
        let x = ps[ps.len() - 1];
        assert(g.holds_spec(x) && !x.waits());
        let one = seq![x];
        lemma_concat(f, one, g);
        assert(f + one =~= ps);
        assert(ps.last() == x);
    }
}

proof fn lemma_none_in(ps: Seq<Post>, g: Group)
    requires
        forall|j: int| 0 <= j < ps.len() ==> !g.holds_spec(#[trigger] ps[j]),
    ensures
        waiting_in(ps, g) == 0,
        bare_in(ps, g) == 0,
        texts_in(ps, g) == Seq::<Seq<char>>::empty(),
    decreases ps.len(),
{
    if ps.len() > 0 {
        let f = ps.drop_last();
        assert forall|j: int| 0 <= j < f.len() implies !g.holds_spec(#[trigger] f[j]) by {
            assert(f[j] == ps[j]);
        }
        lemma_none_in(f, g);
        assert(!g.holds_spec(ps[ps.len() - 1]));
        assert(texts_in(ps, g) =~= Seq::empty());
    }
}

/// The lines that wait for an amount, and the amounts beside them.
pub proof fn lemma_waiting(txn: Seq<Line>, g: Group, n: int)
    requires
        all_uniform(txn),
        0 <= n <= txn.len(),
    ensures
        ({
            let w = explicit::waiting_spec(txn, g, n);
            let ps = fmt::all_posts(txn.take(n));
            &&& w.len() == waiting_in(ps, g)
            &&& forall|k: int|
                0 <= k < w.len() ==> 0 <= #[trigger] w[k] < n && txn[w[k]].is_in(g)
                    && txn[w[k]].waits()
            &&& w.len() == 0 ==> bare_in(ps, g) == 0
            &&& w.len() == 1 ==> bare_in(ps, g) == (if txn[w[0]].postings()[0] is Bare {
                1nat
            } else {
                0nat
            })
            &&& forall|t: int|
                #![trigger explicit::siblings_spec(txn, g, t, n)]
                w.len() == 0 && t >= n || w.len() == 1 && w[0] == t ==> explicit::siblings_spec(txn, g, t, n)
                    == texts_in(ps, g)
        }),
    decreases n,
{
    let w = explicit::waiting_spec(txn, g, n);
    let ps = fmt::all_posts(txn.take(n));
    if n == 0 {
        assert(txn.take(0) =~= Seq::empty());
        assert(ps =~= Seq::empty());
    } else {
        let m = n - 1;
        lemma_waiting(txn, g, m);
        let c = txn[m];
        let wm = explicit::waiting_spec(txn, g, m);
        let pm = fmt::all_posts(txn.take(m));
        assert(txn.take(n).drop_last() =~= txn.take(m));
        assert(txn.take(n).last() == c);
        assert(ps == pm + c.postings());
        assert(uniform(c));
        lemma_line(c, g);
        lemma_concat(pm, c.postings(), g);
        assert forall|k: int| 0 <= k < w.len() implies 0 <= #[trigger] w[k] < n && txn[w[k]].is_in(g)
            && txn[w[k]].waits() by {
            if k < wm.len() {
                assert(w[k] == wm[k]);
            }
        }
        assert forall|t: int|
            #![trigger explicit::siblings_spec(txn, g, t, n)]
            w.len() == 0 && t >= n || w.len() == 1 && w[0] == t implies explicit::siblings_spec(txn, g, t, n)
            == texts_in(ps, g) by {
            let before = explicit::siblings_spec(txn, g, t, m);
            if c.is_in(g) && c.waits() {
                assert(w == wm.push(m));
                assert(wm.len() == 0);
                assert(t == m);
                assert(before == texts_in(pm, g));
                assert(texts_in(pm, g) + texts_in(c.postings(), g) =~= texts_in(pm, g));
            } else {
                assert(w == wm);
                if w.len() == 1 {
                    assert(w[0] < m);
                }
                assert(m != t);
                assert(before == texts_in(pm, g));
                assert(texts_in(pm, g) + Seq::<Seq<char>>::empty() =~= texts_in(pm, g));
            }
        }
    }
}

// ---- postings that stay ----

/// Whether a posting stays as it is: it can be read back from one line, reads as
/// itself, and is restyled to itself.
pub open spec fn firm(p: Post, ctx: Ctx, places: Places) -> bool {
    &&& reread::plain_post(p)
    &&& settle::post_without(p, '\n')
    &&& reread::reread(p) == p
    &&& posting::restyle_post_spec(p, ctx, places) == p
}

/// Whether the postings of a line stay as they are, and there are some.
pub open spec fn firm_line(c: Line, ctx: Ctx, places: Places) -> bool {
    c matches Line::Post(ps) ==> ps.len() > 0 && forall|i: int|
        0 <= i < ps.len() ==> firm(#[trigger] ps[i], ctx, places)
}

/// The tail of a posting that waits for an amount begins with an operator.
proof fn lemma_waiting_tail(rest: Seq<Seq<char>>)
    requires
        lex::split_amount_spec(rest) == (Seq::<char>::empty(), Seq::<char>::empty(), rest),
    ensures
        steady::starts_rest(rest),
{
    steady::lemma_rest_at_cut(rest);
    let k = lex::rest_at_spec(rest);
    let amt = rest.take(k);
    if k > 0 && lex::is_number_like_spec(amt[0]) {
        settle::lemma_groups(amt.skip(1));
    }
    assert(lex::split_amount_spec(rest).2.len() == rest.len());
    assert(rest.skip(0) =~= rest);
}

/// A posting that a generated amount is put into stays as it is.
proof fn lemma_filled_firm(
    account: Seq<char>,
    rest: Seq<Seq<char>>,
    comment: Option<Seq<char>>,
    value: Num,
    name: Seq<char>,
    ctx: Ctx,
    siblings: Seq<Seq<char>>,
)
    requires
        value.representable(),
        restyle::generated_spec(value, name, ctx, siblings) is Some,
        reread::plain_account(account),
        comment matches Some(c) ==> reread::plain_comment(c),
        !account.contains('\n'),
        comment matches Some(c) ==> !c.contains('\n'),
        tokens::all_words(rest),
        forall|i: int| 0 <= i < rest.len() ==> !(#[trigger] rest[i]).contains(';'),
        forall|i: int| 0 <= i < rest.len() ==> !(#[trigger] rest[i]).contains('\n'),
        steady::starts_rest(rest),
        restyle::restyle_tail_spec(rest, ctx, Places::AtLeastDeclared) == rest,
    ensures
        ({
            let t = restyle::render_like_spec(value, name, ctx, siblings);
            let q = explicit::filled_spec(account, t, rest, comment);
            &&& firm(q, ctx, Places::AtLeastDeclared)
            &&& !q.waits()
            &&& q.account() == Some(account)
        }),
{
    let st = restyle::style_for_spec(value, name, ctx, siblings);
    let n = restyle::generated_places(value, st);
    let t = restyle::render_like_spec(value, name, ctx, siblings);
    assert(t == restyle::render_styled_spec(value, name, st, n));
    let toks = text::words_spec(t);
    let (num, commodity, more) = lex::split_amount_spec(toks);
    steady::lemma_reads_back(value, name, st, n, ctx);
    tokens::lemma_words_are_words(t);
    settle::lemma_split_parts(toks);
    assert forall|j: int| 0 <= j < toks.len() implies !(#[trigger] toks[j]).contains(';') by {
        if toks[j].contains(';') {
            let x = choose|x: int| 0 <= x < toks[j].len() && toks[j][x] == ';';
            assert(t.contains(toks[j][x]));
            let y = choose|y: int| 0 <= y < t.len() && t[y] == ';';
            assert(CharClass::Is(';').has(t[y]));
        }
    }
    assert(settle::without(num, commodity, more, ';'));
    assert forall|j: int| 0 <= j < toks.len() implies !(#[trigger] toks[j]).contains('\n') by {
        assert(tokens::is_word(toks[j]));
    }
    assert(settle::without(num, commodity, more, '\n'));
    assert(reread::amount_words(num, commodity, rest) =~= toks + rest);
    steady::lemma_split_at(toks, rest);
    assert(Seq::<Seq<char>>::empty() + rest =~= rest);
    if num.len() == 0 {
        assert(text::words_spec(num) =~= Seq::empty());
        assert(toks =~= Seq::empty());
    }
    if name.len() > 0 && ctx.styles.dom().contains(name) {
        balance::lemma_generated_value(value, st);
        steady::lemma_written_again(value, name, n, ctx, Places::AtLeastDeclared);
    }
}

/// What a posting becomes once the amounts are known stays as it is.
proof fn lemma_applied(
    p: Post,
    dues: Seq<(Seq<char>, Num)>,
    ctx: Ctx,
    siblings: Seq<Seq<char>>,
)
    requires
        firm(p, ctx, Places::AtLeastDeclared),
        p.waits(),
        dues.len() > 0,
        balance::all_fit(dues),
        explicit::all_readable(dues, ctx, siblings),
    ensures
        ({
            let filled = explicit::rendered_spec(dues, ctx, siblings);
            let qs = explicit::apply_one_spec(p, filled);
            &&& qs.len() > 0
            &&& forall|i: int|
                0 <= i < qs.len() ==> firm(#[trigger] qs[i], ctx, Places::AtLeastDeclared) && qs[i].account() == p.account()
            &&& p is Bare || filled.len() == 1 ==> forall|i: int|
                0 <= i < qs.len() ==> !(#[trigger] qs[i]).waits()
            &&& !(p is Bare) && filled.len() != 1 ==> qs == seq![p]
        }),
{
    let filled = explicit::rendered_spec(dues, ctx, siblings);
    let qs = explicit::apply_one_spec(p, filled);
    let none = Seq::<Seq<char>>::empty();
    assert(filled.len() == dues.len());
    match p {
        Post::Bare(account, comment) => {
            assert(restyle::restyle_tail_spec(none, ctx, Places::AtLeastDeclared) =~= none);
            assert forall|i: int| 0 <= i < qs.len() implies firm(#[trigger] qs[i], ctx, Places::AtLeastDeclared)
                && qs[i].account() == p.account() && !qs[i].waits() by {
                assert(dues[i].1.representable());
                lemma_filled_firm(
                    account,
                    none,
                    if i == 0 {
                        comment
                    } else {
                        None
                    },
                    dues[i].1,
                    dues[i].0,
                    ctx,
                    siblings,
                );
                assert(filled[i] == restyle::render_like_spec(dues[i].1, dues[i].0, ctx, siblings));
            }
        },
        Post::Amount { account, num, commodity, rest, comment } => {
            if filled.len() == 1 {
                assert(dues[0].1.representable());
                assert(num =~= Seq::<char>::empty() && commodity =~= Seq::<char>::empty());
                assert(text::words_spec(num) =~= none);
                assert(reread::amount_words(num, commodity, rest) =~= rest);
                lemma_waiting_tail(rest);
                lemma_filled_firm(account, rest, comment, dues[0].1, dues[0].0, ctx, siblings);
                assert(filled[0] == restyle::render_like_spec(dues[0].1, dues[0].0, ctx, siblings));
                assert(qs.len() == 1);
            }
        },
        Post::Comment(_) => {},
    }
}

// ---- filling in ----

/// What stays of lines that are filled in.
pub open spec fn kept_under(a: Seq<Line>, b: Seq<Line>, ctx: Ctx) -> bool {
    &&& a.len() == b.len()
    &&& all_uniform(b)
    &&& forall|i: int| 0 <= i < b.len() ==> firm_line(#[trigger] b[i], ctx, Places::AtLeastDeclared)
    &&& forall|i: int| 0 <= i < b.len() ==> (#[trigger] b[i] is Post) == (a[i] is Post)
    &&& forall|i: int| 0 <= i < b.len() && !(b[i] is Post) ==> #[trigger] b[i] == a[i]
}

/// The postings of lines, one of which is another.
pub proof fn lemma_posts_update(txn: Seq<Line>, t: int, c: Line)
    requires
        0 <= t < txn.len(),
    ensures
        fmt::all_posts(txn) == fmt::all_posts(txn.take(t)) + txn[t].postings() + fmt::all_posts(
            txn.skip(t + 1),
        ),
        fmt::all_posts(txn.update(t, c)) == fmt::all_posts(txn.take(t)) + c.postings()
            + fmt::all_posts(txn.skip(t + 1)),
{
    lemma_posts_concat(txn.take(t + 1), txn.skip(t + 1));
    assert(txn.take(t + 1) + txn.skip(t + 1) =~= txn);
    assert(txn.take(t + 1).drop_last() =~= txn.take(t));
    assert(txn.take(t + 1).last() == txn[t]);
    let u = txn.update(t, c);
    lemma_posts_concat(u.take(t + 1), u.skip(t + 1));
    assert(u.take(t + 1) + u.skip(t + 1) =~= u);
    assert(u.take(t + 1).drop_last() =~= txn.take(t));
    assert(u.take(t + 1).last() == c);
    assert(u.skip(t + 1) =~= txn.skip(t + 1));
}

pub proof fn lemma_posts_concat(a: Seq<Line>, b: Seq<Line>)
    ensures
        fmt::all_posts(a + b) == fmt::all_posts(a) + fmt::all_posts(b),
    decreases b.len(),
{
    if b.len() == 0 {
        assert(a + b =~= a);
        assert(fmt::all_posts(a) + fmt::all_posts(b) =~= fmt::all_posts(a));
    } else {
        lemma_posts_concat(a, b.drop_last());
        assert((a + b).drop_last() =~= a + b.drop_last());
        assert((a + b).last() == b.last());
        assert(fmt::all_posts(a + b) =~= fmt::all_posts(a) + fmt::all_posts(b));
    }
}

/// Where there is nothing to fill in, nothing is.
proof fn lemma_idle(txn: Seq<Line>, ctx: Ctx, g: Group)
    requires
        all_uniform(txn),
        idle(fmt::all_posts(txn), g, ctx),
    ensures
        explicit::fill_group_spec(txn, ctx, g) == txn,
{
    let n = txn.len() as int;
    let w = explicit::waiting_spec(txn, g, n);
    lemma_waiting(txn, g, n);
    assert(txn.take(n) =~= txn);
    if w.len() == 1 {
        let t = w[0];
        let c = txn[t];
        assert(uniform(c));
        lemma_line(c, g);
        let siblings = explicit::siblings_spec(txn, g, t, n);
        assert(siblings == texts_in(fmt::all_posts(txn), g));
        if let Some(filled) = due(fmt::all_posts(txn), g, ctx) {
            let ps = c.postings();
            assert(ps =~= seq![ps[0]]);
            assert(ps.drop_last() =~= Seq::empty());
            assert(explicit::apply_spec(ps.drop_last(), filled) =~= Seq::empty());
            assert(explicit::apply_one_spec(ps[0], filled) =~= seq![ps[0]]);
            assert(explicit::apply_spec(ps, filled) =~= ps);
            assert(txn.update(t, Line::Post(ps)) =~= txn);
        }
    }
}

/// Filling in the amounts of a group leaves nothing to fill in for it, and the
/// other groups as they were.
pub proof fn lemma_fill_group(txn: Seq<Line>, ctx: Ctx, g: Group)
    requires
        all_uniform(txn),
        forall|i: int| 0 <= i < txn.len() ==> firm_line(#[trigger] txn[i], ctx, Places::AtLeastDeclared),
    ensures
        ({
            let out = explicit::fill_group_spec(txn, ctx, g);
            &&& kept_under(txn, out, ctx)
            &&& idle(fmt::all_posts(out), g, ctx)
            &&& !idle(fmt::all_posts(txn), g, ctx) ==> waiting_in(fmt::all_posts(out), g) == 0
            &&& forall|h: Group|
                h != g ==> #[trigger] idle(fmt::all_posts(out), h, ctx) == idle(
                    fmt::all_posts(txn),
                    h,
                    ctx,
                )
        }),
{
    let n = txn.len() as int;
    let all = fmt::all_posts(txn);
    let w = explicit::waiting_spec(txn, g, n);
    lemma_waiting(txn, g, n);
    assert(txn.take(n) =~= txn);
    if idle(all, g, ctx) {
        lemma_idle(txn, ctx, g);
    } else {
        let t = w[0];
        let c = txn[t];
        assert(uniform(c));
        lemma_line(c, g);
        let ps = c.postings();
        let p = ps[0];
        let siblings = explicit::siblings_spec(txn, g, t, n);
        assert(siblings == texts_in(all, g));
        let sums = amount::sums_spec(siblings, ctx, false)->0;
        let dues = explicit::missing_spec(sums)->0;
        let filled = explicit::rendered_spec(dues, ctx, siblings);
        assert(due(all, g, ctx) == Some(filled));
        balance::lemma_missing_fits(siblings, sums, ctx);
        assert(firm_line(c, ctx, Places::AtLeastDeclared));
        assert(firm(ps[0], ctx, Places::AtLeastDeclared));
        lemma_applied(p, dues, ctx, siblings);
        let qs = explicit::apply_one_spec(p, filled);
        assert(ps =~= seq![p]);
        assert(ps.drop_last() =~= Seq::empty());
        assert(explicit::apply_spec(ps.drop_last(), filled) =~= Seq::empty());
        assert(explicit::apply_spec(ps, filled) =~= qs);
        let d = Line::Post(qs);
        let out = txn.update(t, d);
        assert(out == explicit::fill_group_spec(txn, ctx, g));
        assert(filled.len() == dues.len());
        assert(p is Bare || filled.len() == 1);
        assert(uniform(d)) by {
            assert forall|i: int| 0 <= i < qs.len() implies (#[trigger] qs[i]).account()
                == qs[0].account() by {
                assert(firm(qs[i], ctx, Places::AtLeastDeclared) && firm(qs[0], ctx, Places::AtLeastDeclared));
            }
        }
        assert(firm_line(d, ctx, Places::AtLeastDeclared));
        assert(kept_under(txn, out, ctx)) by {
            assert forall|i: int| 0 <= i < out.len() implies uniform(#[trigger] out[i])
                && firm_line(out[i], ctx, Places::AtLeastDeclared) && (out[i] is Post) == (txn[i] is Post) && (!(
            out[i] is Post) ==> out[i] == txn[i]) by {
                assert(uniform(txn[i]) && firm_line(txn[i], ctx, Places::AtLeastDeclared));
            }
        }
        assert forall|j: int| 0 <= j < qs.len() implies g.holds_spec(#[trigger] qs[j])
            && !qs[j].waits() by {
            assert(firm(qs[j], ctx, Places::AtLeastDeclared));
        }
        lemma_target_replaced(txn, t, qs, ctx, g);
    }
}

/// What the groups come to once a posting that waited is replaced.
proof fn lemma_target_replaced(txn: Seq<Line>, t: int, qs: Seq<Post>, ctx: Ctx, g: Group)
    requires
        0 <= t < txn.len(),
        txn[t].postings().len() == 1,
        g.holds_spec(txn[t].postings()[0]),
        txn[t].postings()[0].waits(),
        waiting_in(fmt::all_posts(txn), g) == 1,
        forall|j: int| 0 <= j < qs.len() ==> g.holds_spec(#[trigger] qs[j]) && !qs[j].waits(),
    ensures
        ({
            let out = txn.update(t, Line::Post(qs));
            &&& waiting_in(fmt::all_posts(out), g) == 0
            &&& forall|h: Group|
                h != g ==> #[trigger] idle(fmt::all_posts(out), h, ctx) == idle(
                    fmt::all_posts(txn),
                    h,
                    ctx,
                )
        }),
{
    let d = Line::Post(qs);
    let out = txn.update(t, d);
    let all = fmt::all_posts(txn);
    let ps = txn[t].postings();
    lemma_posts_update(txn, t, d);
    let a = fmt::all_posts(txn.take(t));
    let b = fmt::all_posts(txn.skip(t + 1));
    assert(fmt::all_posts(out) == a + qs + b);
    assert(all == a + ps + b);
    lemma_all_in(qs, g);
    assert(waiting_in(ps, g) == 1) by {
        assert(ps.drop_last() =~= Seq::empty());
        assert(ps.last() == ps[0]);
        reveal_with_fuel(waiting_in, 2);
    }
    lemma_concat(a + ps, b, g);
    lemma_concat(a, ps, g);
    lemma_concat(a + qs, b, g);
    lemma_concat(a, qs, g);
    assert forall|h: Group| h != g implies #[trigger] idle(fmt::all_posts(out), h, ctx) == idle(
        all,
        h,
        ctx,
    ) by {
        lemma_none_in(qs, h);
        lemma_none_in(ps, h);
        lemma_concat(a + ps, b, h);
        lemma_concat(a, ps, h);
        lemma_concat(a + qs, b, h);
        lemma_concat(a, qs, h);
    }
}

/// Each posting of classified lines as a line of its own.
pub open spec fn apart(c: Line) -> Seq<Line> {
    match c {
        Line::Post(ps) => ps.map_values(|p: Post| Line::Post(seq![p])),
        other => seq![other],
    }
}

pub open spec fn all_apart(cs: Seq<Line>) -> Seq<Line>
    decreases cs.len(),
{
    if cs.len() == 0 {
        Seq::empty()
    } else {
        all_apart(cs.drop_last()) + apart(cs.last())
    }
}

pub proof fn lemma_apart_concat(a: Seq<Line>, b: Seq<Line>)
    ensures
        all_apart(a + b) == all_apart(a) + all_apart(b),
    decreases b.len(),
{
    if b.len() == 0 {
        assert(a + b =~= a);
        assert(all_apart(a) + all_apart(b) =~= all_apart(a));
    } else {
        lemma_apart_concat(a, b.drop_last());
        assert((a + b).drop_last() =~= a + b.drop_last());
        assert((a + b).last() == b.last());
        assert(all_apart(a + b) =~= all_apart(a) + all_apart(b));
    }
}

/// Lines of their own hold the same postings.
pub proof fn lemma_apart_posts(cs: Seq<Line>)
    ensures
        fmt::all_posts(all_apart(cs)) == fmt::all_posts(cs),
        all_uniform(all_apart(cs)),
    decreases cs.len(),
{
    if cs.len() > 0 {
        let f = cs.drop_last();
        lemma_apart_posts(f);
        lemma_posts_concat(all_apart(f), apart(cs.last()));
        lemma_one_apart(cs.last());
        let all = all_apart(cs);
        assert forall|i: int| 0 <= i < all.len() implies uniform(#[trigger] all[i]) by {
            if i < all_apart(f).len() {
                assert(all[i] == all_apart(f)[i]);
            } else {
                assert(all[i] == apart(cs.last())[i - all_apart(f).len()]);
            }
        }
    }
}

proof fn lemma_one_apart(c: Line)
    ensures
        fmt::all_posts(apart(c)) == c.postings(),
        all_uniform(apart(c)),
{
    match c {
        Line::Post(ps) => {
            lemma_singles(ps);
            assert(apart(c) =~= ps.map_values(|p: Post| Line::Post(seq![p])));
        },
        other => {
            assert(seq![other].drop_last() =~= Seq::empty());
            assert(fmt::all_posts(seq![other].drop_last()) =~= Seq::empty());
            assert(fmt::all_posts(seq![other]) =~= Seq::empty());
        },
    }
}

proof fn lemma_singles(ps: Seq<Post>)
    ensures
        fmt::all_posts(ps.map_values(|p: Post| Line::Post(seq![p]))) == ps,
    decreases ps.len(),
{
    let all = ps.map_values(|p: Post| Line::Post(seq![p]));
    if ps.len() == 0 {
        assert(fmt::all_posts(all) =~= ps);
    } else {
        lemma_singles(ps.drop_last());
        assert(all.drop_last() =~= ps.drop_last().map_values(|p: Post| Line::Post(seq![p])));
        assert(all.last().postings() =~= seq![ps.last()]);
        assert(fmt::all_posts(all) =~= ps);
    }
}

/// Filling in is done once: the filled lines, each posting on its own, are
/// filled in to themselves.
pub proof fn lemma_filled_once(txn: Seq<Line>, ctx: Ctx)
    requires
        all_uniform(txn),
        forall|i: int| 0 <= i < txn.len() ==> firm_line(#[trigger] txn[i], ctx, Places::AtLeastDeclared),
    ensures
        ({
            let out = explicit::fill_spec(txn, ctx);
            &&& kept_under(txn, out, ctx)
            &&& explicit::fill_spec(all_apart(out), ctx) == all_apart(out)
        }),
{
    let one = explicit::fill_group_spec(txn, ctx, Group::Real);
    let out = explicit::fill_group_spec(one, ctx, Group::Balanced);
    lemma_fill_group(txn, ctx, Group::Real);
    lemma_fill_group(one, ctx, Group::Balanced);
    assert(idle(fmt::all_posts(out), Group::Real, ctx));
    assert(kept_under(txn, out, ctx)) by {
        assert forall|i: int| 0 <= i < out.len() implies (#[trigger] out[i] is Post) == (
        txn[i] is Post) && (!(out[i] is Post) ==> out[i] == txn[i]) by {
            assert((one[i] is Post) == (txn[i] is Post));
        }
    }
    lemma_apart_posts(out);
    lemma_idle(all_apart(out), ctx, Group::Real);
    lemma_idle(all_apart(out), ctx, Group::Balanced);
}

} // verus!
