//! What the postings of a transaction add up to.

use vstd::prelude::*;
use crate::amount::{self, Ctx, Parsed};
use crate::decimal::{self, Num};
use crate::entered;
use crate::fmt;
use crate::fmt::balance;
use crate::fmt::explicit::{self, Group, Line};
use crate::fmt::posting::Post;
use crate::fmt::refill;
use crate::fmt::reread;
use crate::fmt::settle;
use crate::fmt::steady;
use crate::lex;
use crate::restyle::{self, Places};
use crate::text;
use crate::tokens;

verus! {

// ---- values ----

/// The value of a number at a scale, and at a wider one.
proof fn lemma_at(n: Num, s: nat, t: nat)
    requires
        n.scale <= s <= t,
    ensures
        n.at(t) == n.at(s) * decimal::pow10((t - s) as nat),
        decimal::abs(n.at(s)) <= decimal::abs(n.at(t)),
{
    let p = decimal::pow10((s - n.scale) as nat);
    let q = decimal::pow10((t - s) as nat);
    entered::lemma_pow10_sum((s - n.scale) as nat, (t - s) as nat);
    assert((t - n.scale) as nat == (s - n.scale) as nat + (t - s) as nat);
    restyle::lemma_pow10_pos((t - s) as nat);
    let m = n.mantissa;
    assert(m * (p * q) == (m * p) * q) by (nonlinear_arith);
    let v = m * p;
    assert(decimal::abs(v) <= decimal::abs(v * q)) by (nonlinear_arith)
        requires
            q >= 1,
    ;
}

/// A sum that fits is exact.
proof fn lemma_sum(a: Num, b: Num, s: nat, t: nat)
    requires
        a.scale <= s <= t,
        b.scale <= s,
        decimal::abs(a.at(s)) + decimal::abs(b.at(s)) < decimal::limit(),
    ensures
        decimal::sum_of(a, b) matches Some(n) && n.scale <= s && n.at(t) == a.at(t) + b.at(t)
            && decimal::abs(n.at(s)) <= decimal::abs(a.at(s)) + decimal::abs(b.at(s)),
{
    let w = decimal::wider(a, b);
    lemma_at(a, w, s);
    lemma_at(b, w, s);
    lemma_at(a, w, t);
    lemma_at(b, w, t);
    let n = decimal::exact_sum(a, b);
    let x = a.at(w);
    let y = b.at(w);
    let p = decimal::pow10((s - w) as nat);
    let q = decimal::pow10((t - w) as nat);
    assert((x + y) * p == x * p + y * p) by (nonlinear_arith);
    assert((x + y) * q == x * q + y * q) by (nonlinear_arith);
    assert(decimal::sum_fits(a, b));
    if a.mantissa == 0 {
        assert(0 * decimal::pow10((t - a.scale) as nat) == 0) by (nonlinear_arith);
        assert(0 * decimal::pow10((s - a.scale) as nat) == 0) by (nonlinear_arith);
    } else if b.mantissa == 0 {
        assert(0 * decimal::pow10((t - b.scale) as nat) == 0) by (nonlinear_arith);
        assert(0 * decimal::pow10((s - b.scale) as nat) == 0) by (nonlinear_arith);
    }
}

/// Equal numbers have the same value at every scale.
pub proof fn lemma_equal_at(a: Num, b: Num, t: nat)
    requires
        a.equals(b),
        a.scale <= t,
        b.scale <= t,
    ensures
        a.at(t) == b.at(t),
{
    entered::lemma_zero_alike(a, b);
    if a.mantissa == 0 {
        assert(0 * decimal::pow10((t - a.scale) as nat) == 0) by (nonlinear_arith);
        assert(0 * decimal::pow10((t - b.scale) as nat) == 0) by (nonlinear_arith);
    } else {
        balance::lemma_at_normal(a, t);
        balance::lemma_at_normal(b, t);
    }
}

// ---- sums by commodity ----

/// What a list of values of commodities holds of one.
pub open spec fn held_of(sums: Seq<(Seq<char>, Num)>, name: Seq<char>, scale: nat) -> int
    decreases sums.len(),
{
    if sums.len() == 0 {
        0
    } else {
        held_of(sums.skip(1), name, scale) + if sums[0].0 == name {
            sums[0].1.at(scale)
        } else {
            0
        }
    }
}

/// How much a list of values holds, whatever the sign.
pub open spec fn size_of(sums: Seq<(Seq<char>, Num)>, scale: nat) -> int
    decreases sums.len(),
{
    if sums.len() == 0 {
        0
    } else {
        size_of(sums.skip(1), scale) + decimal::abs(sums[0].1.at(scale))
    }
}

/// Whether no value has more decimal places.
pub open spec fn all_within(sums: Seq<(Seq<char>, Num)>, scale: nat) -> bool {
    forall|i: int| 0 <= i < sums.len() ==> (#[trigger] sums[i]).1.scale <= scale
}

proof fn lemma_within_rest(sums: Seq<(Seq<char>, Num)>, scale: nat)
    requires
        all_within(sums, scale),
        sums.len() > 0,
    ensures
        all_within(sums.skip(1), scale),
        sums[0].1.scale <= scale,
{
    let more = sums.skip(1);
    assert forall|i: int| 0 <= i < more.len() implies (#[trigger] more[i]).1.scale <= scale by {
        assert(more[i] == sums[i + 1]);
    }
}

/// Adding a value adds it, exactly, as long as everything together fits.
proof fn lemma_add(
    sums: Seq<(Seq<char>, Num)>,
    commodity: Seq<char>,
    value: Num,
    name: Seq<char>,
    s: nat,
    t: nat,
)
    requires
        all_within(sums, s),
        value.scale <= s <= t,
        size_of(sums, s) + decimal::abs(value.at(s)) < decimal::limit(),
    ensures
        amount::add_spec(sums, commodity, value) matches Some(out) && all_within(out, s)
            && held_of(out, name, t) == held_of(sums, name, t) + (if commodity == name {
            value.at(t)
        } else {
            0
        }) && size_of(out, s) <= size_of(sums, s) + decimal::abs(value.at(s)),
    decreases sums.len(),
{
    let none = Seq::<(Seq<char>, Num)>::empty();
    if sums.len() == 0 {
        let out = seq![(commodity, value)];
        assert(out.skip(1) =~= none);
        assert(held_of(out.skip(1), name, t) == 0);
        assert(size_of(out.skip(1), s) == 0);
    } else {
        let more = sums.skip(1);
        lemma_within_rest(sums, s);
        lemma_size(more, s);
        let (first, v) = sums[0];
        if first == commodity {
            lemma_sum(v, value, s, t);
            let n = decimal::sum_of(v, value)->0;
            let out = seq![(commodity, n)] + more;
            assert(out.skip(1) =~= more);
            assert forall|i: int| 0 <= i < out.len() implies (#[trigger] out[i]).1.scale <= s by {
                if i > 0 {
                    assert(out[i] == more[i - 1]);
                }
            }
        } else {
            lemma_add(more, commodity, value, name, s, t);
            let later = amount::add_spec(more, commodity, value)->0;
            let out = seq![sums[0]] + later;
            assert(out.skip(1) =~= later);
            assert forall|i: int| 0 <= i < out.len() implies (#[trigger] out[i]).1.scale <= s by {
                if i > 0 {
                    assert(out[i] == later[i - 1]);
                }
            }
        }
    }
}

proof fn lemma_size(sums: Seq<(Seq<char>, Num)>, scale: nat)
    ensures
        size_of(sums, scale) >= 0,
    decreases sums.len(),
{
    if sums.len() > 0 {
        lemma_size(sums.skip(1), scale);
    }
}

// ---- amounts ----

/// What an amount counts as: its face, or what it contributes through its cost.
pub open spec fn counted(p: Parsed, face: bool) -> (Num, Seq<char>) {
    if face {
        (p.value, p.commodity)
    } else {
        p.contributes
    }
}

/// What the texts of amounts come to of a commodity.
pub open spec fn said_of(
    texts: Seq<Seq<char>>,
    ctx: Ctx,
    face: bool,
    name: Seq<char>,
    scale: nat,
) -> int
    decreases texts.len(),
{
    if texts.len() == 0 {
        0
    } else {
        said_of(texts.drop_last(), ctx, face, name, scale) + match amount::parse_amount_spec(
            texts.last(),
            ctx,
        ) {
            Some(p) => if counted(p, face).1 == name {
                counted(p, face).0.at(scale)
            } else {
                0
            },
            None => 0,
        }
    }
}

/// How much the texts of amounts contribute, whatever the sign.
pub open spec fn size_said(texts: Seq<Seq<char>>, ctx: Ctx, face: bool, scale: nat) -> int
    decreases texts.len(),
{
    if texts.len() == 0 {
        0
    } else {
        size_said(texts.drop_last(), ctx, face, scale) + match amount::parse_amount_spec(
            texts.last(),
            ctx,
        ) {
            Some(p) => decimal::abs(counted(p, face).0.at(scale)),
            None => 0,
        }
    }
}

/// Whether every text is an amount with no more decimal places.
pub open spec fn all_said(texts: Seq<Seq<char>>, ctx: Ctx, face: bool, scale: nat) -> bool {
    forall|i: int|
        0 <= i < texts.len() ==> {
            &&& !lex::is_blank_spec(#[trigger] texts[i])
            &&& amount::parse_amount_spec(texts[i], ctx) matches Some(p)
            &&& counted(p, face).0.scale <= scale
        }
}

/// Sums are sums: of every commodity they hold exactly what the amounts
/// come to, as long as everything together fits in a decimal.
pub proof fn sums_are_exact(
    texts: Seq<Seq<char>>,
    ctx: Ctx,
    face: bool,
    name: Seq<char>,
    s: nat,
    t: nat,
)
    requires
        s <= t,
        all_said(texts, ctx, face, s),
        size_said(texts, ctx, face, s) < decimal::limit(),
    ensures
        amount::sums_spec(texts, ctx, face) matches Some(sums) && held_of(sums, name, t)
            == said_of(texts, ctx, face, name, t) && all_within(sums, s) && size_of(sums, s)
            <= size_said(texts, ctx, face, s),
    decreases texts.len(),
{
    if texts.len() > 0 {
        let f = texts.drop_last();
        assert forall|i: int| 0 <= i < f.len() implies !lex::is_blank_spec(#[trigger] f[i])
            && amount::parse_amount_spec(f[i], ctx) is Some && counted(
            amount::parse_amount_spec(f[i], ctx)->0,
            face,
        ).0.scale <= s by {
            assert(f[i] == texts[i]);
        }
        assert(all_said(f, ctx, face, s));
        assert(!lex::is_blank_spec(texts[texts.len() - 1]));
        let p = amount::parse_amount_spec(texts.last(), ctx)->0;
        sums_are_exact(f, ctx, face, name, s, t);
        let sums = amount::sums_spec(f, ctx, face)->0;
        lemma_add(sums, counted(p, face).1, counted(p, face).0, name, s, t);
    }
}

/// What is imbalanced is what the amounts add up to: a commodity is left out
/// exactly where its amounts cancel.
pub proof fn an_imbalance_is_what_is_left(
    texts: Seq<Seq<char>>,
    ctx: Ctx,
    face: bool,
    name: Seq<char>,
    s: nat,
    t: nat,
)
    requires
        s <= t,
        all_said(texts, ctx, face, s),
        size_said(texts, ctx, face, s) < decimal::limit(),
    ensures
        amount::imbalance_spec(texts, ctx, face) matches Some(left) && held_of(left, name, t)
            == said_of(texts, ctx, face, name, t) && forall|i: int|
            0 <= i < left.len() ==> (#[trigger] left[i]).1.mantissa != 0,
{
    sums_are_exact(texts, ctx, face, name, s, t);
    lemma_nonzero(amount::sums_spec(texts, ctx, face)->0, name, t);
}

pub proof fn lemma_held_push(sums: Seq<(Seq<char>, Num)>, e: (Seq<char>, Num), name: Seq<char>, t: nat)
    ensures
        held_of(sums.push(e), name, t) == held_of(sums, name, t) + (if e.0 == name {
            e.1.at(t)
        } else {
            0
        }),
    decreases sums.len(),
{
    let all = sums.push(e);
    if sums.len() == 0 {
        assert(all.skip(1) =~= sums);
    } else {
        lemma_held_push(sums.skip(1), e, name, t);
        assert(all.skip(1) =~= sums.skip(1).push(e));
    }
}

pub proof fn lemma_nonzero(sums: Seq<(Seq<char>, Num)>, name: Seq<char>, t: nat)
    ensures
        held_of(amount::nonzero_spec(sums), name, t) == held_of(sums, name, t),
        forall|i: int|
            0 <= i < amount::nonzero_spec(sums).len() ==> (
            #[trigger] amount::nonzero_spec(sums)[i]).1.mantissa != 0,
    decreases sums.len(),
{
    if sums.len() > 0 {
        let f = sums.drop_last();
        lemma_nonzero(f, name, t);
        assert(f.push(sums.last()) =~= sums);
        lemma_held_push(f, sums.last(), name, t);
        lemma_held_push(amount::nonzero_spec(f), sums.last(), name, t);
        if sums.last().1.mantissa == 0 {
            let q = decimal::pow10((t - sums.last().1.scale) as nat);
            assert(0 * q == 0) by (nonlinear_arith);
        }
    }
}

// ---- postings ----

/// What a posting contributes and of which commodity, by its number, its
/// commodity and its tail alone.
pub open spec fn contributes(p: Post, ctx: Ctx) -> Option<(Num, Seq<char>)> {
    match p {
        Post::Amount { num, commodity, rest, .. } => match amount::parse_face_spec(
            num,
            commodity,
            ctx,
        ) {
            None => None,
            Some((value, name)) => amount::contribution_spec(value, name, rest, ctx),
        },
        _ => None,
    }
}

/// What a posting contributes of a commodity to a group.
pub open spec fn share(p: Post, g: Group, ctx: Ctx, name: Seq<char>, scale: nat) -> int {
    if g.holds_spec(p) && !p.waits() {
        match contributes(p, ctx) {
            Some((value, commodity)) => if commodity == name {
                value.at(scale)
            } else {
                0
            },
            None => 0,
        }
    } else {
        0
    }
}

/// What the postings of a group come to of a commodity.
pub open spec fn total(ps: Seq<Post>, g: Group, ctx: Ctx, name: Seq<char>, scale: nat) -> int
    decreases ps.len(),
{
    if ps.len() == 0 {
        0
    } else {
        total(ps.drop_last(), g, ctx, name, scale) + share(ps.last(), g, ctx, name, scale)
    }
}

/// How much a posting contributes to a group, whatever the sign.
pub open spec fn size_share(p: Post, g: Group, ctx: Ctx, scale: nat) -> int {
    if g.holds_spec(p) && !p.waits() {
        match contributes(p, ctx) {
            Some((value, _)) => decimal::abs(value.at(scale)),
            None => 0,
        }
    } else {
        0
    }
}

/// How much the postings of a group contribute, whatever the sign.
pub open spec fn size_total(ps: Seq<Post>, g: Group, ctx: Ctx, scale: nat) -> int
    decreases ps.len(),
{
    if ps.len() == 0 {
        0
    } else {
        size_total(ps.drop_last(), g, ctx, scale) + size_share(ps.last(), g, ctx, scale)
    }
}

/// Whether every amount of a group can be read and has no more decimal places.
pub open spec fn all_posted(ps: Seq<Post>, g: Group, ctx: Ctx, scale: nat) -> bool {
    forall|i: int|
        0 <= i < ps.len() && g.holds_spec(#[trigger] ps[i]) && !ps[i].waits() ==> (contributes(
            ps[i],
            ctx,
        ) matches Some((value, _)) && value.scale <= scale)
}

/// Whether the amounts of a group can be added up without rounding.
pub open spec fn addable(ps: Seq<Post>, g: Group, ctx: Ctx, scale: nat) -> bool {
    all_posted(ps, g, ctx, scale) && size_total(ps, g, ctx, scale) < decimal::limit()
}

pub open spec fn all_firm(ps: Seq<Post>, ctx: Ctx) -> bool {
    forall|i: int|
        0 <= i < ps.len() ==> refill::firm(#[trigger] ps[i], ctx, Places::AtLeastDeclared)
}

proof fn lemma_total_concat(
    a: Seq<Post>,
    b: Seq<Post>,
    g: Group,
    ctx: Ctx,
    name: Seq<char>,
    t: nat,
)
    ensures
        total(a + b, g, ctx, name, t) == total(a, g, ctx, name, t) + total(b, g, ctx, name, t),
        size_total(a + b, g, ctx, t) == size_total(a, g, ctx, t) + size_total(b, g, ctx, t),
    decreases b.len(),
{
    if b.len() == 0 {
        assert(a + b =~= a);
    } else {
        lemma_total_concat(a, b.drop_last(), g, ctx, name, t);
        assert((a + b).drop_last() =~= a + b.drop_last());
        assert((a + b).last() == b.last());
    }
}

// ---- what a posting says ----

/// The words of parts, one after another.
pub open spec fn words_of(parts: Seq<Seq<char>>) -> Seq<Seq<char>>
    decreases parts.len(),
{
    if parts.len() == 0 {
        Seq::empty()
    } else {
        words_of(parts.drop_last()) + text::words_spec(parts.last())
    }
}

proof fn lemma_words_of(parts: Seq<Seq<char>>)
    ensures
        text::words_spec(text::join_spec(parts, " "@)) == words_of(parts),
    decreases parts.len(),
{
    reveal_strlit(" ");
    if parts.len() == 0 {
        tokens::lemma_words_white(Seq::empty());
    } else {
        let f = parts.drop_last();
        lemma_words_of(f);
        if parts.len() == 1 {
            assert(f =~= Seq::empty());
            assert(words_of(parts) =~= text::words_spec(parts[0]));
        } else {
            let j = text::join_spec(f, " "@);
            tokens::lemma_words_concat(j + " "@, parts.last());
            tokens::lemma_words_concat(j, " "@);
            tokens::lemma_words_white(" "@);
            assert(words_of(f) + Seq::<Seq<char>>::empty() =~= words_of(f));
        }
    }
}

proof fn lemma_words_of_words(a: Seq<Seq<char>>, ws: Seq<Seq<char>>)
    requires
        tokens::all_words(ws),
    ensures
        words_of(a + ws) == words_of(a) + ws,
    decreases ws.len(),
{
    if ws.len() == 0 {
        assert(a + ws =~= a);
        assert(words_of(a) + ws =~= words_of(a));
    } else {
        let f = ws.drop_last();
        assert forall|i: int| 0 <= i < f.len() implies tokens::is_word(#[trigger] f[i]) by {
            assert(f[i] == ws[i]);
        }
        lemma_words_of_words(a, f);
        assert((a + ws).drop_last() =~= a + f);
        assert((a + ws).last() == ws.last());
        assert(tokens::is_word(ws[ws.len() - 1]));
        tokens::lemma_words_one(ws.last());
        assert(words_of(a) + f + seq![ws.last()] =~= words_of(a) + ws);
    }
}

/// Every posting with an amount counts in the balance with that amount: its
/// number, its commodity and its tail say what it contributes, and no comment
/// does.
pub proof fn a_posting_contributes_its_amount(p: Post, ctx: Ctx)
    requires
        reread::plain_post(p),
        reread::reread(p) == p,
        !p.waits(),
        p is Amount,
    ensures
        explicit::amount_text_spec(p) matches Some(said) && !lex::is_blank_spec(said) && (
        match contributes(p, ctx) {
            None => amount::parse_amount_spec(said, ctx) is None,
            Some(c) => amount::parse_amount_spec(said, ctx) matches Some(q) && q.contributes == c,
        }),
{
    if let Post::Amount { account, num, commodity, rest, comment } = p {
        let a = if num.len() == 0 {
            Seq::<Seq<char>>::empty()
        } else {
            seq![num]
        };
        let b = if commodity.len() == 0 {
            Seq::<Seq<char>>::empty()
        } else {
            seq![commodity]
        };
        let parts = a + b + rest;
        let said = text::join_spec(parts, " "@);
        lemma_words_of(parts);
        lemma_words_of_words(a + b, rest);
        lemma_words_of_words(a, b);
        if num.len() == 0 {
            tokens::lemma_words_white(num);
            assert(words_of(a) =~= text::words_spec(num));
        } else {
            assert(a.drop_last() =~= Seq::empty());
            assert(words_of(a.drop_last()) =~= Seq::empty());
            assert(words_of(a) =~= text::words_spec(num));
        }
        let toks = reread::amount_words(num, commodity, rest);
        assert(text::words_spec(said) =~= toks);
        if lex::is_blank_spec(said) {
            tokens::lemma_words_white(said);
        }
    }
}

/// A comment changes nothing of what a posting contributes, and only a posting
/// without number, commodity and tail contributes nothing.
pub proof fn a_comment_does_not_count(p: Post, q: Post)
    requires
        p matches Post::Amount { num: n1, commodity: c1, rest: r1, .. } && q matches Post::Amount {
            num: n2,
            commodity: c2,
            rest: r2,
            ..
        } && n1 == n2 && c1 == c2 && r1 == r2,
    ensures
        explicit::amount_text_spec(p) == explicit::amount_text_spec(q),
        p matches Post::Amount { num, commodity, rest, .. } ==> ((explicit::amount_text_spec(
            p,
        ) is None) == (num.len() == 0 && commodity.len() == 0 && rest.len() == 0)),
{
}

/// The amounts of a group are those of all its postings.
proof fn lemma_texts(ps: Seq<Post>, g: Group, ctx: Ctx, name: Seq<char>, t: nat)
    requires
        all_firm(ps, ctx),
    ensures
        said_of(refill::texts_in(ps, g), ctx, false, name, t) == total(ps, g, ctx, name, t),
        size_said(refill::texts_in(ps, g), ctx, false, t) == size_total(ps, g, ctx, t),
        all_posted(ps, g, ctx, t) ==> all_said(refill::texts_in(ps, g), ctx, false, t),
    decreases ps.len(),
{
    if ps.len() > 0 {
        let f = ps.drop_last();
        let n = ps.len() - 1;
        let p = ps[n];
        assert forall|i: int| 0 <= i < f.len() implies refill::firm(
            #[trigger] f[i],
            ctx,
            Places::AtLeastDeclared,
        ) by {
            assert(f[i] == ps[i]);
        }
        lemma_texts(f, g, ctx, name, t);
        assert(refill::firm(ps[n], ctx, Places::AtLeastDeclared));
        let before = refill::texts_in(f, g);
        let now = refill::texts_in(ps, g);
        if all_posted(ps, g, ctx, t) {
            assert forall|i: int|
                0 <= i < f.len() && g.holds_spec(#[trigger] f[i]) && !f[i].waits() implies (
            contributes(f[i], ctx) matches Some((value, _)) && value.scale <= t) by {
                assert(f[i] == ps[i]);
            }
            assert(all_posted(f, g, ctx, t));
        }
        if g.holds_spec(p) && !p.waits() {
            assert(p is Amount);
            a_posting_contributes_its_amount(p, ctx);
            let said = explicit::amount_text_spec(p)->0;
            let one = seq![p];
            assert(one.drop_last() =~= Seq::empty());
            assert(explicit::amount_texts_spec(one.drop_last()) =~= Seq::empty());
            assert(explicit::amount_texts_spec(one) =~= seq![said]);
            assert(now =~= before.push(said));
            assert(now.drop_last() =~= before);
            if all_posted(ps, g, ctx, t) {
                assert(contributes(ps[n], ctx) is Some);
                assert forall|i: int| 0 <= i < now.len() implies {
                    &&& !lex::is_blank_spec(#[trigger] now[i])
                    &&& amount::parse_amount_spec(now[i], ctx) matches Some(q)
                    &&& counted(q, false).0.scale <= t
                } by {
                    if i < before.len() {
                        assert(now[i] == before[i]);
                    }
                }
            }
        } else {
            assert(now =~= before);
        }
    }
}

// ---- what is filled in ----

/// The negated sums are what is missing.
proof fn lemma_negated(sums: Seq<(Seq<char>, Num)>, name: Seq<char>, t: nat)
    requires
        balance::all_fit(sums),
    ensures
        explicit::negated_spec(sums) matches Some(neg) && held_of(neg, name, t) == -held_of(
            sums,
            name,
            t,
        ) && (forall|s: nat| #[trigger] all_within(sums, s) ==> all_within(neg, s)),
    decreases sums.len(),
{
    if sums.len() > 0 {
        let f = sums.drop_last();
        let n = sums.len() - 1;
        assert forall|i: int| 0 <= i < f.len() implies (#[trigger] f[i]).1.representable() by {
            assert(f[i] == sums[i]);
        }
        lemma_negated(f, name, t);
        let (c, v) = sums[n];
        assert(sums[n].1.representable());
        balance::lemma_negated_none(v);
        assert(f.push(sums.last()) =~= sums);
        lemma_held_push(f, sums.last(), name, t);
        let before = explicit::negated_spec(f)->0;
        let w = decimal::negated(v);
        lemma_held_push(before, (c, w), name, t);
        let q = decimal::pow10((t - v.scale) as nat);
        let m = v.mantissa;
        assert((-m) * q == -(m * q)) by (nonlinear_arith);
        assert(v.at(t) == m * q);
        assert(m == 0 ==> m * q == 0) by (nonlinear_arith);
        let neg = explicit::negated_spec(sums)->0;
        assert forall|s: nat| #[trigger] all_within(sums, s) implies all_within(neg, s) by {
            assert forall|i: int| 0 <= i < f.len() implies (#[trigger] f[i]).1.scale <= s by {
                assert(f[i] == sums[i]);
            }
            assert(all_within(f, s));
            assert(sums[n].1.scale <= s);
            assert forall|i: int| 0 <= i < neg.len() implies (#[trigger] neg[i]).1.scale <= s by {
                if i < before.len() {
                    assert(neg[i] == before[i]);
                }
            }
        }
    }
}

proof fn lemma_missing(sums: Seq<(Seq<char>, Num)>, name: Seq<char>, s: nat, t: nat)
    requires
        balance::all_fit(sums),
        all_within(sums, s),
        s <= t,
    ensures
        explicit::missing_spec(sums) matches Some(due) ==> held_of(due, name, t) == -held_of(
            sums,
            name,
            t,
        ) && all_within(due, s),
{
    lemma_negated(sums, name, t);
    if let Some(due) = explicit::missing_spec(sums) {
        let neg = explicit::negated_spec(sums)->0;
        if neg.len() == 0 {
            assert(due.skip(1) =~= Seq::empty());
            assert(held_of(due.skip(1), name, t) == 0);
            assert(0 * decimal::pow10(t) == 0) by (nonlinear_arith);
            assert(due[0].1 == Num::zero());
        }
    }
}

/// Whether the tail of a posting says nothing of its cost.
pub open spec fn uncosted(p: Post) -> bool {
    p matches Post::Amount { rest, .. } ==> rest.len() == 0 || rest[0].len() > 0 && rest[0][0]
        == '='
}

/// A posting with a generated amount contributes it.
proof fn lemma_filled_one(
    account: Seq<char>,
    rest: Seq<Seq<char>>,
    comment: Option<Seq<char>>,
    value: Num,
    name: Seq<char>,
    ctx: Ctx,
    siblings: Seq<Seq<char>>,
)
    requires
        value.representable(),
        restyle::generated_spec(value, name, ctx, siblings) is Some,
        rest.len() == 0 || rest[0].len() > 0 && rest[0][0] == '=',
    ensures
        contributes(
            explicit::filled_spec(
                account,
                restyle::render_like_spec(value, name, ctx, siblings),
                rest,
                comment,
            ),
            ctx,
        ) matches Some((u, commodity)) && commodity == name && u.equals(value),
{
    balance::a_generated_amount_reads_back(value, name, ctx, siblings);
}

/// The postings that take the missing amounts come to what is missing.
proof fn lemma_filled_many(
    account: Seq<char>,
    comment: Option<Seq<char>>,
    dues: Seq<(Seq<char>, Num)>,
    ctx: Ctx,
    siblings: Seq<Seq<char>>,
    qs: Seq<Post>,
    g: Group,
    name: Seq<char>,
    t: nat,
)
    requires
        balance::all_fit(dues),
        explicit::all_readable(dues, ctx, siblings),
        all_within(dues, t),
        qs.len() == dues.len(),
        forall|i: int|
            0 <= i < qs.len() ==> #[trigger] qs[i] == explicit::filled_spec(
                account,
                restyle::render_like_spec(dues[i].1, dues[i].0, ctx, siblings),
                Seq::empty(),
                if i == 0 {
                    comment
                } else {
                    None
                },
            ),
        forall|i: int| 0 <= i < qs.len() ==> g.holds_spec(#[trigger] qs[i]) && !qs[i].waits(),
        all_posted(qs, g, ctx, t),
    ensures
        total(qs, g, ctx, name, t) == held_of(dues, name, t),
    decreases qs.len(),
{
    if qs.len() > 0 {
        let f = qs.drop_last();
        let d = dues.drop_last();
        let n = qs.len() - 1;
        assert forall|i: int| 0 <= i < d.len() implies (#[trigger] d[i]).1.representable() && d[i].1.scale
            <= t && restyle::generated_spec(d[i].1, d[i].0, ctx, siblings) is Some by {
            assert(d[i] == dues[i]);
        }
        assert(balance::all_fit(d) && explicit::all_readable(d, ctx, siblings) && all_within(d, t));
        assert forall|i: int| 0 <= i < f.len() implies #[trigger] f[i] == explicit::filled_spec(
            account,
            restyle::render_like_spec(d[i].1, d[i].0, ctx, siblings),
            Seq::empty(),
            if i == 0 {
                comment
            } else {
                None
            },
        ) && g.holds_spec(f[i]) && !f[i].waits() by {
            assert(f[i] == qs[i] && d[i] == dues[i]);
        }
        assert forall|i: int|
            0 <= i < f.len() && g.holds_spec(#[trigger] f[i]) && !f[i].waits() implies (
        contributes(f[i], ctx) matches Some((value, _)) && value.scale <= t) by {
            assert(f[i] == qs[i]);
        }
        lemma_filled_many(account, comment, d, ctx, siblings, f, g, name, t);
        assert(dues[n].1.representable() && dues[n].1.scale <= t);
        lemma_filled_one(
            account,
            Seq::empty(),
            if n == 0 {
                comment
            } else {
                None
            },
            dues[n].1,
            dues[n].0,
            ctx,
            siblings,
        );
        assert(g.holds_spec(qs[n]));
        let (u, _) = contributes(qs[n], ctx)->0;
        lemma_equal_at(u, dues[n].1, t);
        assert(d.push(dues[n]) =~= dues);
        lemma_held_push(d, dues[n], name, t);
    }
}

// ---- groups ----

/// The postings of a group, in order.
pub open spec fn of_group(ps: Seq<Post>, g: Group) -> Seq<Post>
    decreases ps.len(),
{
    if ps.len() == 0 {
        Seq::empty()
    } else if g.holds_spec(ps.last()) {
        of_group(ps.drop_last(), g).push(ps.last())
    } else {
        of_group(ps.drop_last(), g)
    }
}

proof fn lemma_group_concat(a: Seq<Post>, b: Seq<Post>, g: Group)
    ensures
        of_group(a + b, g) == of_group(a, g) + of_group(b, g),
    decreases b.len(),
{
    if b.len() == 0 {
        assert(a + b =~= a);
        assert(of_group(a, g) + of_group(b, g) =~= of_group(a, g));
    } else {
        lemma_group_concat(a, b.drop_last(), g);
        assert((a + b).drop_last() =~= a + b.drop_last());
        assert((a + b).last() == b.last());
        assert(of_group(a + b, g) =~= of_group(a, g) + of_group(b, g));
    }
}

proof fn lemma_group_holds(ps: Seq<Post>, g: Group)
    ensures
        forall|x: Post| #[trigger]
            of_group(ps, g).contains(x) <==> ps.contains(x) && g.holds_spec(x),
    decreases ps.len(),
{
    let o = of_group(ps, g);
    if ps.len() > 0 {
        let f = ps.drop_last();
        let of = of_group(f, g);
        let n = ps.len() - 1;
        lemma_group_holds(f, g);
        assert forall|x: Post| #[trigger]
            o.contains(x) <==> ps.contains(x) && g.holds_spec(x) by {
            assert(of.contains(x) <==> f.contains(x) && g.holds_spec(x));
            if o.contains(x) {
                let i = choose|i: int| 0 <= i < o.len() && o[i] == x;
                if i < of.len() {
                    assert(of[i] == x);
                    assert(of.contains(x));
                    let j = choose|j: int| 0 <= j < f.len() && f[j] == x;
                    assert(ps[j] == x);
                } else {
                    assert(ps[n] == x);
                }
            }
            if ps.contains(x) && g.holds_spec(x) {
                let i = choose|i: int| 0 <= i < ps.len() && ps[i] == x;
                if i < n {
                    assert(f[i] == x);
                    assert(of.contains(x));
                    let j = choose|j: int| 0 <= j < of.len() && of[j] == x;
                    assert(o[j] == x);
                } else {
                    assert(o[o.len() - 1] == x);
                }
            }
        }
    } else {
        assert forall|x: Post| !(#[trigger] o.contains(x)) && !ps.contains(x) by {}
    }
}

/// The other postings make no difference.
proof fn lemma_group_total(ps: Seq<Post>, g: Group, ctx: Ctx, name: Seq<char>, t: nat)
    ensures
        total(of_group(ps, g), g, ctx, name, t) == total(ps, g, ctx, name, t),
        size_total(of_group(ps, g), g, ctx, t) == size_total(ps, g, ctx, t),
        refill::waiting_in(of_group(ps, g), g) == refill::waiting_in(ps, g),
    decreases ps.len(),
{
    if ps.len() > 0 {
        let f = ps.drop_last();
        lemma_group_total(f, g, ctx, name, t);
        if g.holds_spec(ps.last()) {
            let o = of_group(ps, g);
            assert(o.drop_last() =~= of_group(f, g));
            assert(o.last() == ps.last());
        }
    }
}

proof fn lemma_group_posted(ps: Seq<Post>, g: Group, ctx: Ctx, t: nat)
    ensures
        all_posted(of_group(ps, g), g, ctx, t) == all_posted(ps, g, ctx, t),
{
    let o = of_group(ps, g);
    lemma_group_holds(ps, g);
    if all_posted(ps, g, ctx, t) {
        assert forall|i: int|
            0 <= i < o.len() && g.holds_spec(#[trigger] o[i]) && !o[i].waits() implies (
        contributes(o[i], ctx) matches Some((value, _)) && value.scale <= t) by {
            assert(o.contains(o[i]));
            let j = choose|j: int| 0 <= j < ps.len() && ps[j] == o[i];
            assert(g.holds_spec(ps[j]));
        }
    }
    if all_posted(o, g, ctx, t) {
        assert forall|i: int|
            0 <= i < ps.len() && g.holds_spec(#[trigger] ps[i]) && !ps[i].waits() implies (
        contributes(ps[i], ctx) matches Some((value, _)) && value.scale <= t) by {
            assert(ps.contains(ps[i]));
            assert(o.contains(ps[i]));
            let j = choose|j: int| 0 <= j < o.len() && o[j] == ps[i];
            assert(g.holds_spec(o[j]));
        }
    }
}

/// Whether a posting of a list waits for an amount.
pub open spec fn some_wait(ps: Seq<Post>) -> bool {
    exists|i: int| 0 <= i < ps.len() && (#[trigger] ps[i]).waits()
}

proof fn lemma_waiting_some(ps: Seq<Post>, g: Group)
    ensures
        some_wait(of_group(ps, g)) == (refill::waiting_in(ps, g) > 0),
    decreases ps.len(),
{
    if ps.len() > 0 {
        let f = ps.drop_last();
        let of = of_group(f, g);
        let o = of_group(ps, g);
        lemma_waiting_some(f, g);
        if some_wait(of) {
            let i = choose|i: int| 0 <= i < of.len() && (#[trigger] of[i]).waits();
            assert(o[i] == of[i]);
            assert(o[i].waits());
        }
        if g.holds_spec(ps.last()) && ps.last().waits() {
            assert(o[o.len() - 1].waits());
        }
        if some_wait(o) {
            let i = choose|i: int| 0 <= i < o.len() && (#[trigger] o[i]).waits();
            if i < of.len() {
                assert(of[i] == o[i]);
                assert(of[i].waits());
            }
        }
    }
}

/// Whether no posting that waits for an amount names its cost already.
pub open spec fn all_uncosted(ps: Seq<Post>) -> bool {
    forall|i: int| 0 <= i < ps.len() && (#[trigger] ps[i]).waits() ==> uncosted(ps[i])
}

/// Filling in one group: what it comes to then, and that the others stay.
proof fn lemma_filled_group(
    txn: Seq<Line>,
    ctx: Ctx,
    g: Group,
    name: Seq<char>,
    s: nat,
    t: nat,
)
    requires
        refill::all_uniform(txn),
        forall|i: int|
            0 <= i < txn.len() ==> refill::firm_line(
                #[trigger] txn[i],
                ctx,
                Places::AtLeastDeclared,
            ),
    ensures
        ({
            let out = explicit::fill_group_spec(txn, ctx, g);
            let src = of_group(fmt::all_posts(txn), g);
            let dst = of_group(fmt::all_posts(out), g);
            &&& forall|h: Group| #![trigger of_group(fmt::all_posts(out), h)]
                h != g ==> of_group(fmt::all_posts(out), h) == of_group(fmt::all_posts(txn), h)
            &&& addable(src, g, ctx, s) && s <= t && all_uncosted(src) && some_wait(src)
                && !some_wait(dst) && all_posted(dst, g, ctx, t) ==> total(dst, g, ctx, name, t)
                == 0
        }),
{
    let n = txn.len() as int;
    let all = fmt::all_posts(txn);
    let out = explicit::fill_group_spec(txn, ctx, g);
    let src = of_group(all, g);
    let dst = of_group(fmt::all_posts(out), g);
    let w = explicit::waiting_spec(txn, g, n);
    refill::lemma_waiting(txn, g, n);
    assert(txn.take(n) =~= txn);
    if out != txn {
        let k = w[0];
        let c = txn[k];
        assert(refill::uniform(c));
        refill::lemma_line(c, g);
        let ps = c.postings();
        let p = ps[0];
        let siblings = explicit::siblings_spec(txn, g, k, n);
        assert(siblings == refill::texts_in(all, g));
        let sums = amount::sums_spec(siblings, ctx, false)->0;
        let dues = explicit::missing_spec(sums)->0;
        let filled = explicit::rendered_spec(dues, ctx, siblings);
        let qs = explicit::apply_one_spec(p, filled);
        assert(ps =~= seq![p]);
        assert(ps.drop_last() =~= Seq::empty());
        assert(explicit::apply_spec(ps.drop_last(), filled) =~= Seq::empty());
        assert(explicit::apply_spec(ps, filled) =~= qs);
        let d = Line::Post(qs);
        assert(out == txn.update(k, d));
        refill::lemma_posts_update(txn, k, d);
        let a = fmt::all_posts(txn.take(k));
        let b = fmt::all_posts(txn.skip(k + 1));
        assert(all == a + ps + b);
        assert(fmt::all_posts(out) == a + qs + b);
        lemma_same_account(p, filled);
        assert forall|h: Group| h != g implies #[trigger] of_group(fmt::all_posts(out), h)
            == of_group(all, h) by {
            lemma_group_concat(a + ps, b, h);
            lemma_group_concat(a, ps, h);
            lemma_group_concat(a + qs, b, h);
            lemma_group_concat(a, qs, h);
            lemma_group_none(ps, h);
            lemma_group_none(qs, h);
        }
        if addable(src, g, ctx, s) && s <= t && all_uncosted(src) && some_wait(src) && !some_wait(
            dst,
        ) && all_posted(dst, g, ctx, t) {
            lemma_firm_posts(txn, ctx);
            lemma_filled_sum(a, ps, b, qs, p, dues, ctx, siblings, g, name, s, t, sums);
        }
    }
}

proof fn lemma_firm_posts(txn: Seq<Line>, ctx: Ctx)
    requires
        forall|i: int|
            0 <= i < txn.len() ==> refill::firm_line(
                #[trigger] txn[i],
                ctx,
                Places::AtLeastDeclared,
            ),
    ensures
        all_firm(fmt::all_posts(txn), ctx),
    decreases txn.len(),
{
    if txn.len() > 0 {
        let f = txn.drop_last();
        assert forall|i: int| 0 <= i < f.len() implies refill::firm_line(
            #[trigger] f[i],
            ctx,
            Places::AtLeastDeclared,
        ) by {
            assert(f[i] == txn[i]);
        }
        lemma_firm_posts(f, ctx);
        let last = txn[txn.len() - 1];
        assert(refill::firm_line(last, ctx, Places::AtLeastDeclared));
        let before = fmt::all_posts(f);
        let all = fmt::all_posts(txn);
        assert(all == before + last.postings());
        assert forall|i: int| 0 <= i < all.len() implies refill::firm(
            #[trigger] all[i],
            ctx,
            Places::AtLeastDeclared,
        ) by {
            if i < before.len() {
                assert(all[i] == before[i]);
            } else {
                assert(all[i] == last.postings()[i - before.len()]);
            }
        }
    }
}

/// What a posting becomes is of the same account.
proof fn lemma_same_account(p: Post, filled: Seq<Seq<char>>)
    ensures
        forall|i: int|
            0 <= i < explicit::apply_one_spec(p, filled).len() ==> (
            #[trigger] explicit::apply_one_spec(p, filled)[i]).account() == p.account(),
{
}

proof fn lemma_group_none(ps: Seq<Post>, g: Group)
    requires
        forall|i: int| 0 <= i < ps.len() ==> !g.holds_spec(#[trigger] ps[i]),
    ensures
        of_group(ps, g) == Seq::<Post>::empty(),
    decreases ps.len(),
{
    if ps.len() > 0 {
        let f = ps.drop_last();
        assert forall|i: int| 0 <= i < f.len() implies !g.holds_spec(#[trigger] f[i]) by {
            assert(f[i] == ps[i]);
        }
        lemma_group_none(f, g);
        assert(!g.holds_spec(ps[ps.len() - 1]));
    }
}

/// The posting that takes the missing amounts comes to what is missing.
proof fn lemma_target_total(
    qs: Seq<Post>,
    p: Post,
    dues: Seq<(Seq<char>, Num)>,
    ctx: Ctx,
    siblings: Seq<Seq<char>>,
    g: Group,
    name: Seq<char>,
    t: nat,
)
    requires
        dues.len() > 0,
        balance::all_fit(dues),
        all_within(dues, t),
        explicit::all_readable(dues, ctx, siblings),
        p.waits(),
        uncosted(p),
        qs == explicit::apply_one_spec(p, explicit::rendered_spec(dues, ctx, siblings)),
        forall|i: int| 0 <= i < qs.len() ==> taken(#[trigger] qs[i], g, ctx, t),
    ensures
        total(qs, g, ctx, name, t) == held_of(dues, name, t),
{
    let filled = explicit::rendered_spec(dues, ctx, siblings);
    assert forall|i: int| 0 <= i < qs.len() implies g.holds_spec(#[trigger] qs[i])
        && !qs[i].waits() by {
        assert(taken(qs[i], g, ctx, t));
    }
    assert(all_posted(qs, g, ctx, t)) by {
        assert forall|i: int|
            0 <= i < qs.len() && g.holds_spec(#[trigger] qs[i]) && !qs[i].waits() implies (
        contributes(qs[i], ctx) matches Some((value, _)) && value.scale <= t) by {
            assert(taken(qs[i], g, ctx, t));
        }
    }
    match p {
        Post::Bare(account, comment) => {
            lemma_filled_many(account, comment, dues, ctx, siblings, qs, g, name, t);
        },
        Post::Amount { account, num, commodity, rest, comment } => {
            if filled.len() != 1 {
                assert(qs[0] == p);
                assert(!qs[0].waits());
            }
            let v = dues[0].1;
            assert(v.representable() && v.scale <= t);
            assert(filled[0] == restyle::render_like_spec(v, dues[0].0, ctx, siblings));
            lemma_filled_one(account, rest, comment, v, dues[0].0, ctx, siblings);
            assert(taken(qs[0], g, ctx, t));
            let (u, _) = contributes(qs[0], ctx)->0;
            lemma_equal_at(u, v, t);
            assert(qs.drop_last() =~= Seq::empty());
            assert(total(qs.drop_last(), g, ctx, name, t) == 0);
            assert(dues.skip(1) =~= Seq::empty());
            assert(held_of(dues.skip(1), name, t) == 0);
            assert(qs.last() == qs[0]);
        },
        Post::Comment(_) => {},
    }
}

/// Whether a posting of a group has an amount of no more decimal places.
pub open spec fn taken(p: Post, g: Group, ctx: Ctx, t: nat) -> bool {
    g.holds_spec(p) && !p.waits() && (contributes(p, ctx) matches Some((value, _)) && value.scale
        <= t)
}

/// The postings in the place of one that waited have their amounts.
proof fn lemma_all_taken(
    a: Seq<Post>,
    b: Seq<Post>,
    qs: Seq<Post>,
    p: Post,
    filled: Seq<Seq<char>>,
    ctx: Ctx,
    g: Group,
    t: nat,
)
    requires
        g.holds_spec(p),
        qs == explicit::apply_one_spec(p, filled),
        !some_wait(of_group(a + qs + b, g)),
        all_posted(of_group(a + qs + b, g), g, ctx, t),
    ensures
        forall|i: int| 0 <= i < qs.len() ==> taken(#[trigger] qs[i], g, ctx, t),
{
    let out = a + qs + b;
    let o = of_group(out, g);
    lemma_group_holds(out, g);
    lemma_same_account(p, filled);
    assert forall|i: int| 0 <= i < qs.len() implies taken(#[trigger] qs[i], g, ctx, t) by {
        assert(out[a.len() + i] == qs[i]);
        assert(out.contains(qs[i]));
        assert(qs[i].account() == p.account());
        assert(o.contains(qs[i]));
        let j = choose|j: int| 0 <= j < o.len() && o[j] == qs[i];
        assert(!o[j].waits());
        assert(g.holds_spec(o[j]));
    }
}

proof fn lemma_target_uncosted(a: Seq<Post>, p: Post, b: Seq<Post>, g: Group)
    requires
        g.holds_spec(p),
        p.waits(),
        all_uncosted(of_group(a + seq![p] + b, g)),
    ensures
        uncosted(p),
{
    let all = a + seq![p] + b;
    let o = of_group(all, g);
    lemma_group_holds(all, g);
    assert(all[a.len() as int] == p);
    assert(all.contains(p));
    assert(o.contains(p));
    let i = choose|i: int| 0 <= i < o.len() && o[i] == p;
    assert(o[i].waits());
}

proof fn lemma_filled_sum(
    a: Seq<Post>,
    ps: Seq<Post>,
    b: Seq<Post>,
    qs: Seq<Post>,
    p: Post,
    dues: Seq<(Seq<char>, Num)>,
    ctx: Ctx,
    siblings: Seq<Seq<char>>,
    g: Group,
    name: Seq<char>,
    s: nat,
    t: nat,
    sums: Seq<(Seq<char>, Num)>,
)
    requires
        s <= t,
        ps == seq![p],
        p.waits(),
        g.holds_spec(p),
        all_firm(a + ps + b, ctx),
        siblings == refill::texts_in(a + ps + b, g),
        amount::sums_spec(siblings, ctx, false) == Some(sums),
        explicit::missing_spec(sums) == Some(dues),
        explicit::all_readable(dues, ctx, siblings),
        qs == explicit::apply_one_spec(p, explicit::rendered_spec(dues, ctx, siblings)),
        addable(of_group(a + ps + b, g), g, ctx, s),
        all_uncosted(of_group(a + ps + b, g)),
        !some_wait(of_group(a + qs + b, g)),
        all_posted(of_group(a + qs + b, g), g, ctx, t),
    ensures
        total(of_group(a + qs + b, g), g, ctx, name, t) == 0,
{
    let all = a + ps + b;
    let out = a + qs + b;
    let filled = explicit::rendered_spec(dues, ctx, siblings);
    lemma_group_total(all, g, ctx, name, s);
    lemma_group_total(all, g, ctx, name, t);
    lemma_group_total(out, g, ctx, name, t);
    lemma_group_posted(all, g, ctx, s);
    lemma_group_posted(out, g, ctx, t);
    lemma_texts(all, g, ctx, name, s);
    lemma_texts(all, g, ctx, name, t);
    sums_are_exact(siblings, ctx, false, name, s, t);
    balance::lemma_sums_fit(siblings, ctx);
    balance::lemma_missing_fits(siblings, sums, ctx);
    lemma_missing(sums, name, s, t);
    assert(all_within(dues, t)) by {
        assert forall|i: int| 0 <= i < dues.len() implies (#[trigger] dues[i]).1.scale <= t by {
            assert(dues[i].1.scale <= s);
        }
    }
    lemma_total_concat(a + ps, b, g, ctx, name, t);
    lemma_total_concat(a, ps, g, ctx, name, t);
    lemma_total_concat(a + qs, b, g, ctx, name, t);
    lemma_total_concat(a, qs, g, ctx, name, t);
    assert(total(ps, g, ctx, name, t) == 0) by {
        assert(ps.drop_last() =~= Seq::empty());
        assert(total(ps.drop_last(), g, ctx, name, t) == 0);
        assert(ps.last() == p);
    }
    lemma_target_uncosted(a, p, b, g);
    lemma_all_taken(a, b, qs, p, filled, ctx, g, t);
    lemma_target_total(qs, p, dues, ctx, siblings, g, name, t);
}

/// What has been filled in adds up to zero: where a posting of a group waited
/// for its amount and none waits any longer, the amounts of the whole group come
/// to nothing in every commodity, whatever comments stand beside them. The real
/// postings of a transaction are one group and the balanced virtual ones
/// another.
pub proof fn a_filled_in_group_adds_up(
    txn: Seq<Line>,
    ctx: Ctx,
    g: Group,
    name: Seq<char>,
    s: nat,
    t: nat,
)
    requires
        refill::all_uniform(txn),
        forall|i: int|
            0 <= i < txn.len() ==> refill::firm_line(
                #[trigger] txn[i],
                ctx,
                Places::AtLeastDeclared,
            ),
        g == Group::Real || g == Group::Balanced,
        s <= t,
        addable(of_group(fmt::all_posts(txn), g), g, ctx, s),
        all_uncosted(of_group(fmt::all_posts(txn), g)),
        some_wait(of_group(fmt::all_posts(txn), g)),
        !some_wait(of_group(fmt::all_posts(explicit::fill_spec(txn, ctx)), g)),
        all_posted(of_group(fmt::all_posts(explicit::fill_spec(txn, ctx)), g), g, ctx, t),
    ensures
        total(of_group(fmt::all_posts(explicit::fill_spec(txn, ctx)), g), g, ctx, name, t) == 0,
{
    let mid = explicit::fill_group_spec(txn, ctx, Group::Real);
    let out = explicit::fill_group_spec(mid, ctx, Group::Balanced);
    refill::lemma_fill_group(txn, ctx, Group::Real);
    lemma_filled_group(txn, ctx, Group::Real, name, s, t);
    lemma_filled_group(mid, ctx, Group::Balanced, name, s, t);
    assert(of_group(fmt::all_posts(mid), Group::Balanced) == of_group(
        fmt::all_posts(txn),
        Group::Balanced,
    ));
    assert(of_group(fmt::all_posts(out), Group::Real) == of_group(
        fmt::all_posts(mid),
        Group::Real,
    ));
}

// ---- when it is filled in ----

/// Whether amounts of a commodity can always be written: it declares a style in
/// which they read as what they are.
pub open spec fn writable(name: Seq<char>, ctx: Ctx) -> bool {
    ctx.styles.dom().contains(name) && steady::legible(name, ctx.styles[name]) && !name.contains(
        ';',
    )
}

pub open spec fn all_writable(sums: Seq<(Seq<char>, Num)>, ctx: Ctx) -> bool {
    forall|i: int| 0 <= i < sums.len() ==> writable((#[trigger] sums[i]).0, ctx)
}

proof fn lemma_add_writable(sums: Seq<(Seq<char>, Num)>, name: Seq<char>, value: Num, ctx: Ctx)
    requires
        all_writable(sums, ctx),
        writable(name, ctx),
    ensures
        amount::add_spec(sums, name, value) matches Some(out) ==> all_writable(out, ctx)
            && out.len() > 0,
    decreases sums.len(),
{
    if sums.len() > 0 {
        let more = sums.skip(1);
        assert forall|i: int| 0 <= i < more.len() implies writable((#[trigger] more[i]).0, ctx) by {
            assert(more[i] == sums[i + 1]);
        }
        assert(writable(sums[0].0, ctx));
        lemma_add_writable(more, name, value, ctx);
        if let Some(out) = amount::add_spec(sums, name, value) {
            assert forall|i: int| 0 <= i < out.len() implies writable(
                (#[trigger] out[i]).0,
                ctx,
            ) by {
                if sums[0].0 == name {
                    if i > 0 {
                        assert(out[i] == more[i - 1]);
                    }
                } else {
                    let later = amount::add_spec(more, name, value)->0;
                    if i > 0 {
                        assert(out[i] == later[i - 1]);
                    }
                }
            }
        }
    }
}

/// Whether every text names a commodity that can be written.
pub open spec fn texts_writable(texts: Seq<Seq<char>>, ctx: Ctx, face: bool) -> bool {
    forall|i: int|
        0 <= i < texts.len() ==> (amount::parse_amount_spec(#[trigger] texts[i], ctx) matches Some(
            p,
        ) ==> writable(counted(p, face).1, ctx))
}

pub proof fn lemma_sums_writable(texts: Seq<Seq<char>>, ctx: Ctx, face: bool, s: nat)
    requires
        texts_writable(texts, ctx, face),
        all_said(texts, ctx, face, s),
    ensures
        amount::sums_spec(texts, ctx, face) matches Some(sums) ==> all_writable(sums, ctx) && (
        texts.len() > 0 ==> sums.len() > 0),
    decreases texts.len(),
{
    if texts.len() > 0 {
        let f = texts.drop_last();
        assert forall|i: int| 0 <= i < f.len() implies (amount::parse_amount_spec(
            #[trigger] f[i],
            ctx,
        ) matches Some(p) ==> writable(counted(p, face).1, ctx)) && !lex::is_blank_spec(f[i])
            && amount::parse_amount_spec(f[i], ctx) is Some && counted(
            amount::parse_amount_spec(f[i], ctx)->0,
            face,
        ).0.scale <= s by {
            assert(f[i] == texts[i]);
        }
        assert(texts_writable(f, ctx, face) && all_said(f, ctx, face, s));
        lemma_sums_writable(f, ctx, face, s);
        assert(!lex::is_blank_spec(texts[texts.len() - 1]));
        let p = amount::parse_amount_spec(texts.last(), ctx)->0;
        if let Some(before) = amount::sums_spec(f, ctx, face) {
            lemma_add_writable(before, counted(p, face).1, counted(p, face).0, ctx);
        }
    }
}

/// Whether every posting of a group contributes of a commodity that can be
/// written.
pub open spec fn posts_writable(ps: Seq<Post>, g: Group, ctx: Ctx) -> bool {
    forall|i: int|
        0 <= i < ps.len() && g.holds_spec(#[trigger] ps[i]) && !ps[i].waits() ==> (contributes(
            ps[i],
            ctx,
        ) matches Some((_, name)) ==> writable(name, ctx))
}

/// Whether a posting of a group has an amount.
pub open spec fn some_posted(ps: Seq<Post>, g: Group) -> bool {
    exists|i: int| 0 <= i < ps.len() && g.holds_spec(#[trigger] ps[i]) && !ps[i].waits()
}

proof fn lemma_texts_writable(ps: Seq<Post>, g: Group, ctx: Ctx)
    requires
        all_firm(ps, ctx),
        posts_writable(ps, g, ctx),
    ensures
        texts_writable(refill::texts_in(ps, g), ctx, false),
        some_posted(ps, g) ==> refill::texts_in(ps, g).len() > 0,
    decreases ps.len(),
{
    if ps.len() > 0 {
        let f = ps.drop_last();
        let n = ps.len() - 1;
        let p = ps[n];
        assert forall|i: int| 0 <= i < f.len() implies refill::firm(
            #[trigger] f[i],
            ctx,
            Places::AtLeastDeclared,
        ) by {
            assert(f[i] == ps[i]);
        }
        assert forall|i: int|
            0 <= i < f.len() && g.holds_spec(#[trigger] f[i]) && !f[i].waits() implies (
        contributes(f[i], ctx) matches Some((_, name)) ==> writable(name, ctx)) by {
            assert(f[i] == ps[i]);
        }
        lemma_texts_writable(f, g, ctx);
        assert(refill::firm(ps[n], ctx, Places::AtLeastDeclared));
        let before = refill::texts_in(f, g);
        let now = refill::texts_in(ps, g);
        if g.holds_spec(p) && !p.waits() {
            assert(p is Amount);
            a_posting_contributes_its_amount(p, ctx);
            let said = explicit::amount_text_spec(p)->0;
            let one = seq![p];
            assert(one.drop_last() =~= Seq::empty());
            assert(explicit::amount_texts_spec(one.drop_last()) =~= Seq::empty());
            assert(explicit::amount_texts_spec(one) =~= seq![said]);
            assert(now =~= before.push(said));
            assert(g.holds_spec(ps[n]));
            assert forall|i: int| 0 <= i < now.len() implies (amount::parse_amount_spec(
                #[trigger] now[i],
                ctx,
            ) matches Some(q) ==> writable(counted(q, false).1, ctx)) by {
                if i < before.len() {
                    assert(now[i] == before[i]);
                }
            }
        } else {
            assert(now =~= before);
            if some_posted(ps, g) {
                let i = choose|i: int|
                    0 <= i < ps.len() && g.holds_spec(#[trigger] ps[i]) && !ps[i].waits();
                assert(f[i] == ps[i]);
                assert(some_posted(f, g));
            }
        }
    }
}

/// A missing amount is filled in: where one posting of a group says nothing but
/// its account, the others can be added up, and their commodities declare styles
/// in which an amount reads as what it is, no posting waits any longer.
pub proof fn a_missing_amount_is_filled_in(txn: Seq<Line>, ctx: Ctx, g: Group, s: nat)
    requires
        refill::all_uniform(txn),
        forall|i: int|
            0 <= i < txn.len() ==> refill::firm_line(
                #[trigger] txn[i],
                ctx,
                Places::AtLeastDeclared,
            ),
        settle::clean(ctx),
        refill::waiting_in(fmt::all_posts(txn), g) == 1,
        refill::bare_in(fmt::all_posts(txn), g) == 1,
        addable(fmt::all_posts(txn), g, ctx, s),
        posts_writable(fmt::all_posts(txn), g, ctx),
        some_posted(fmt::all_posts(txn), g),
        g == Group::Real || g == Group::Balanced,
    ensures
        !some_wait(of_group(fmt::all_posts(explicit::fill_spec(txn, ctx)), g)),
{
    let mid = explicit::fill_group_spec(txn, ctx, Group::Real);
    let out = explicit::fill_group_spec(mid, ctx, Group::Balanced);
    let none = Seq::<char>::empty();
    refill::lemma_fill_group(txn, ctx, Group::Real);
    refill::lemma_fill_group(mid, ctx, Group::Balanced);
    lemma_filled_group(txn, ctx, Group::Real, none, s, s);
    lemma_filled_group(mid, ctx, Group::Balanced, none, s, s);
    lemma_due(txn, ctx, g, s);
    if g == Group::Real {
        assert(of_group(fmt::all_posts(out), g) == of_group(fmt::all_posts(mid), g));
        lemma_waiting_some(fmt::all_posts(mid), g);
    } else {
        assert(of_group(fmt::all_posts(mid), g) == of_group(fmt::all_posts(txn), g));
        assert(refill::idle(fmt::all_posts(mid), g, ctx) == refill::idle(
            fmt::all_posts(txn),
            g,
            ctx,
        ));
        lemma_waiting_some(fmt::all_posts(out), g);
    }
}

/// What is missing of such a group can be worked out.
proof fn lemma_due(txn: Seq<Line>, ctx: Ctx, g: Group, s: nat)
    requires
        forall|i: int|
            0 <= i < txn.len() ==> refill::firm_line(
                #[trigger] txn[i],
                ctx,
                Places::AtLeastDeclared,
            ),
        settle::clean(ctx),
        refill::waiting_in(fmt::all_posts(txn), g) == 1,
        refill::bare_in(fmt::all_posts(txn), g) == 1,
        addable(fmt::all_posts(txn), g, ctx, s),
        posts_writable(fmt::all_posts(txn), g, ctx),
        some_posted(fmt::all_posts(txn), g),
    ensures
        !refill::idle(fmt::all_posts(txn), g, ctx),
{
    let all = fmt::all_posts(txn);
    let texts = refill::texts_in(all, g);
    let none = Seq::<char>::empty();
    lemma_firm_posts(txn, ctx);
    lemma_texts(all, g, ctx, none, s);
    lemma_texts_writable(all, g, ctx);
    sums_are_exact(texts, ctx, false, none, s, s);
    lemma_sums_writable(texts, ctx, false, s);
    let sums = amount::sums_spec(texts, ctx, false)->0;
    assert forall|i: int| 0 <= i < sums.len() implies {
        &&& ctx.styles.dom().contains((#[trigger] sums[i]).0)
        &&& steady::legible(sums[i].0, ctx.styles[sums[i].0])
        &&& !sums[i].0.contains(';')
    } by {
        assert(writable(sums[i].0, ctx));
    }
    balance::a_legible_remainder_is_filled_in(texts, sums, ctx);
}

// ---- groups ----

/// The bracket that an account starts with decides which postings it balances
/// against: the real ones, the balanced virtual ones, or none.
pub proof fn brackets_decide_the_group(account: Seq<char>)
    requires
        account.len() > 0,
        !text::is_white(account[0]),
        account[0] != '*' && account[0] != '!',
    ensures
        (Group::of_spec(account) == Group::Balanced) == (account[0] == '['),
        (Group::of_spec(account) == Group::Unbalanced) == (account[0] == '('),
        (Group::of_spec(account) == Group::Real) == (account[0] != '[' && account[0] != '('),
{
    text::lemma_run_is(account, text::CharClass::White, true, 0);
    assert(account.skip(0) =~= account);
}

/// Only what waits for an amount is filled in: every other line of a transaction
/// stays as it is, and unbalanced virtual postings stay as they are altogether.
pub proof fn what_does_not_wait_stays(txn: Seq<Line>, ctx: Ctx, i: int)
    requires
        refill::all_uniform(txn),
        forall|i: int|
            0 <= i < txn.len() ==> refill::firm_line(
                #[trigger] txn[i],
                ctx,
                Places::AtLeastDeclared,
            ),
        0 <= i < txn.len(),
    ensures
        explicit::fill_spec(txn, ctx).len() == txn.len(),
        !txn[i].waits() ==> explicit::fill_spec(txn, ctx)[i] == txn[i],
        of_group(fmt::all_posts(explicit::fill_spec(txn, ctx)), Group::Unbalanced) == of_group(
            fmt::all_posts(txn),
            Group::Unbalanced,
        ),
{
    let mid = explicit::fill_group_spec(txn, ctx, Group::Real);
    let none = Seq::<char>::empty();
    refill::lemma_fill_group(txn, ctx, Group::Real);
    refill::lemma_fill_group(mid, ctx, Group::Balanced);
    lemma_filled_group(txn, ctx, Group::Real, none, 0, 0);
    lemma_filled_group(mid, ctx, Group::Balanced, none, 0, 0);
    lemma_one_changed(txn, ctx, Group::Real, i);
    lemma_one_changed(mid, ctx, Group::Balanced, i);
    assert(of_group(fmt::all_posts(mid), Group::Unbalanced) == of_group(
        fmt::all_posts(txn),
        Group::Unbalanced,
    ));
}

proof fn lemma_one_changed(txn: Seq<Line>, ctx: Ctx, g: Group, i: int)
    requires
        refill::all_uniform(txn),
        0 <= i < txn.len(),
    ensures
        explicit::fill_group_spec(txn, ctx, g).len() == txn.len(),
        !txn[i].waits() ==> explicit::fill_group_spec(txn, ctx, g)[i] == txn[i],
{
    refill::lemma_waiting(txn, g, txn.len() as int);
}

/// A posting that takes several amounts becomes one posting for each, all of the
/// same account, and its comment stays with the first.
pub proof fn a_split_posting_keeps_its_comment_once(
    account: Seq<char>,
    comment: Option<Seq<char>>,
    filled: Seq<Seq<char>>,
)
    ensures
        ({
            let qs = explicit::apply_one_spec(Post::Bare(account, comment), filled);
            &&& qs.len() == filled.len()
            &&& forall|i: int|
                0 <= i < qs.len() ==> (#[trigger] qs[i] matches Post::Amount {
                    account: a,
                    rest,
                    comment: c,
                    ..
                } && a == account && rest.len() == 0 && c == (if i == 0 {
                    comment
                } else {
                    None
                }))
        }),
{
}

} // verus!
