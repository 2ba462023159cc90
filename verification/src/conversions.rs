//! What costs come to, and what cancels them.

use vstd::prelude::*;
use crate::amount::{self, Ctx, Parsed};
use crate::decimal::{self, Num};
use crate::entered;
use crate::equity;
use crate::fmt::balance;
use crate::fmt::settle;
use crate::fmt::steady;
use crate::fmt::sums::{self, all_said, all_within, counted, held_of, said_of, size_said};
use crate::fmt::sums::{texts_writable, writable};
use crate::lex;
use crate::restyle;

verus! {

// ---- costs ----

/// What an amount with a cost contributes: with a price per unit the product of
/// amount and price, and with a total price that total with the sign of the
/// amount, both in the commodity of the price. Without a price it is the amount.
pub proof fn a_cost_converts(
    value: Num,
    commodity: Seq<char>,
    toks: Seq<Seq<char>>,
    more: Seq<Seq<char>>,
    price: Num,
    cost: Seq<char>,
    ctx: Ctx,
)
    requires
        steady::loose(toks),
        steady::starts_rest(more),
        ({
            let (num, name, _) = lex::split_amount_spec(toks);
            amount::parse_face_spec(num, name, ctx) == Some((price, cost))
        }),
        price.representable(),
    ensures
        decimal::product_fits(value, price) && value.mantissa != 0 && price.mantissa != 0
            ==> amount::contribution_spec(value, commodity, seq!["@"@] + toks + more, ctx) == Some(
            (
                Num {
                    mantissa: value.mantissa * price.mantissa,
                    scale: value.scale + price.scale,
                },
                cost,
            ),
        ),
        amount::contribution_spec(value, commodity, seq!["@@"@] + toks + more, ctx) matches Some(
            (total, name),
        ) && name == cost && total.scale == price.scale && total.mantissa == (if value.mantissa < 0 {
            -decimal::abs(price.mantissa)
        } else {
            decimal::abs(price.mantissa)
        }),
        amount::contribution_spec(value, commodity, Seq::empty(), ctx) == Some((value, commodity)),
{
    reveal_strlit("@");
    reveal_strlit("@@");
    entered::lemma_operand_is("@"@, toks, more);
    entered::lemma_operand_is("@@"@, toks, more);
    assert(amount::attached_spec("@"@) + toks =~= toks);
    assert(amount::attached_spec("@@"@) + toks =~= toks);
    if value.mantissa < 0 {
        balance::lemma_negated_none(price.abs());
    }
}

/// A balance assertion says what an account holds afterwards. It changes nothing
/// of what a posting contributes, whatever it asserts.
pub proof fn an_assertion_does_not_count(
    value: Num,
    commodity: Seq<char>,
    rest: Seq<Seq<char>>,
    ctx: Ctx,
)
    requires
        rest.len() > 0,
        rest[0].len() > 0,
        rest[0][0] == '=',
    ensures
        amount::contribution_spec(value, commodity, rest, ctx) == Some((value, commodity)),
{
}

// ---- conversion postings ----

/// An amount that is written out has the face that it was written from.
proof fn lemma_face_back(w: Num, c: Seq<char>, ctx: Ctx, siblings: Seq<Seq<char>>)
    requires
        w.representable(),
        settle::clean(ctx),
        sums::writable(c, ctx),
    ensures
        amount::parse_amount_spec(restyle::render_like_spec(w, c, ctx, siblings), ctx) matches Some(
            p,
        ) && p.value.equals(w) && p.commodity == c,
{
    balance::a_legible_amount_is_generated(w, c, ctx, siblings);
    balance::a_generated_amount_reads_back(w, c, ctx, siblings);
}

/// What cancelling sums come to.
proof fn lemma_cancelling(
    sums: Seq<(Seq<char>, Num)>,
    ctx: Ctx,
    siblings: Seq<Seq<char>>,
    name: Seq<char>,
    t: nat,
)
    requires
        balance::all_fit(sums),
        sums::all_within(sums, t),
        settle::clean(ctx),
        sums::all_writable(sums, ctx),
        sums::all_said(equity::cancelling_spec(sums, ctx, siblings), ctx, true, t),
    ensures
        sums::said_of(equity::cancelling_spec(sums, ctx, siblings), ctx, true, name, t) == -sums::held_of(
            sums,
            name,
            t,
        ),
    decreases sums.len(),
{
    let texts = equity::cancelling_spec(sums, ctx, siblings);
    if sums.len() > 0 {
        let f = sums.drop_last();
        let n = sums.len() - 1;
        let (c, v) = sums[n];
        assert forall|i: int| 0 <= i < f.len() implies (#[trigger] f[i]).1.representable()
            && f[i].1.scale <= t && sums::writable(f[i].0, ctx) by {
            assert(f[i] == sums[i]);
        }
        assert(balance::all_fit(f) && sums::all_within(f, t) && sums::all_writable(f, ctx));
        assert(sums[n].1.representable() && sums[n].1.scale <= t);
        assert(sums::writable(sums[n].0, ctx));
        balance::lemma_negated_none(v);
        let w = decimal::negated(v);
        let before = equity::cancelling_spec(f, ctx, siblings);
        let x = restyle::render_like_spec(w, c, ctx, siblings);
        assert(texts == before.push(x));
        assert(texts.drop_last() =~= before);
        assert forall|i: int| 0 <= i < before.len() implies {
            &&& !lex::is_blank_spec(#[trigger] before[i])
            &&& amount::parse_amount_spec(before[i], ctx) matches Some(p)
            &&& sums::counted(p, true).0.scale <= t
        } by {
            assert(before[i] == texts[i]);
        }
        lemma_cancelling(f, ctx, siblings, name, t);
        lemma_face_back(w, c, ctx, siblings);
        assert(texts[texts.len() - 1] == x);
        assert(!lex::is_blank_spec(texts[texts.len() - 1]));
        let p = amount::parse_amount_spec(x, ctx)->0;
        sums::lemma_equal_at(p.value, w, t);
        let m = v.mantissa;
        let q = decimal::pow10((t - v.scale) as nat);
        assert((-m) * q == -(m * q)) by (nonlinear_arith);
        assert(f.push(sums[n]) =~= sums);
        sums::lemma_held_push(f, sums[n], name, t);
    }
}

/// Conversion postings cancel the faces: with them, what the amounts of a
/// transaction say come to nothing in every commodity, without any cost being
/// looked at.
pub proof fn conversions_cancel_the_faces(
    amounts: Seq<Seq<char>>,
    ctx: Ctx,
    name: Seq<char>,
    s: nat,
    t: nat,
)
    requires
        s <= t,
        sums::all_said(amounts, ctx, true, s),
        sums::size_said(amounts, ctx, true, s) < decimal::limit(),
        settle::clean(ctx),
        sums::texts_writable(amounts, ctx, true),
        sums::all_said(equity::equity_conversions_spec(amounts, ctx), ctx, true, t),
    ensures
        sums::said_of(amounts, ctx, true, name, t) + sums::said_of(
            equity::equity_conversions_spec(amounts, ctx),
            ctx,
            true,
            name,
            t,
        ) == 0,
{
    sums::sums_are_exact(amounts, ctx, true, name, s, t);
    let all = amount::sums_spec(amounts, ctx, true)->0;
    let left = amount::nonzero_spec(all);
    sums::lemma_nonzero(all, name, t);
    sums::lemma_sums_writable(amounts, ctx, true, s);
    lemma_faces_fit(amounts, ctx);
    lemma_part(all, ctx, t, s);
    assert(!equity::any_blank_spec(amounts));
    lemma_cancelling(left, ctx, amounts, name, t);
}

/// Face sums fit.
proof fn lemma_faces_fit(amounts: Seq<Seq<char>>, ctx: Ctx)
    ensures
        amount::sums_spec(amounts, ctx, true) matches Some(sums) ==> balance::all_fit(sums),
    decreases amounts.len(),
{
    if amounts.len() > 0 {
        lemma_faces_fit(amounts.drop_last(), ctx);
        balance::lemma_contribution_fits(amounts.last(), ctx);
        if let Some(before) = amount::sums_spec(amounts.drop_last(), ctx, true) {
            if !lex::is_blank_spec(amounts.last()) {
                if let Some(p) = amount::parse_amount_spec(amounts.last(), ctx) {
                    balance::lemma_add_fits(before, p.commodity, p.value);
                }
            }
        }
    }
}

/// The sums that are not zero are some of the sums.
pub proof fn lemma_part(sums: Seq<(Seq<char>, Num)>, ctx: Ctx, t: nat, s: nat)
    requires
        balance::all_fit(sums),
        sums::all_within(sums, s),
        s <= t,
        sums::all_writable(sums, ctx),
    ensures
        balance::all_fit(amount::nonzero_spec(sums)),
        sums::all_within(amount::nonzero_spec(sums), t),
        sums::all_writable(amount::nonzero_spec(sums), ctx),
    decreases sums.len(),
{
    if sums.len() > 0 {
        let f = sums.drop_last();
        let n = sums.len() - 1;
        assert forall|i: int| 0 <= i < f.len() implies (#[trigger] f[i]).1.representable()
            && f[i].1.scale <= s && sums::writable(f[i].0, ctx) by {
            assert(f[i] == sums[i]);
        }
        assert(balance::all_fit(f) && sums::all_within(f, s) && sums::all_writable(f, ctx));
        lemma_part(f, ctx, t, s);
        assert(sums[n].1.representable() && sums[n].1.scale <= s && sums::writable(sums[n].0, ctx));
        let before = amount::nonzero_spec(f);
        let now = amount::nonzero_spec(sums);
        assert forall|i: int| 0 <= i < now.len() implies (#[trigger] now[i]).1.representable()
            && now[i].1.scale <= t && sums::writable(now[i].0, ctx) by {
            if i < before.len() {
                assert(now[i] == before[i]);
            }
        }
    }
}

// ---- the layout ----

/// Whether a list of postings holds one.
pub open spec fn lists(v: Seq<usize>, j: int) -> bool {
    exists|i: int| 0 <= i < v.len() && #[trigger] v[i] == j
}

proof fn lemma_members(ps: Seq<Parsed>, conv: Seq<bool>, c: int, n: int, j: int)
    requires
        0 <= n <= usize::MAX,
    ensures
        lists(equity::members_spec(ps, conv, c, n), j) == (0 <= j < n && equity::belongs(
            ps,
            conv,
            j,
            c,
        )),
    decreases n,
{
    let v = equity::members_spec(ps, conv, c, n);
    if n > 0 {
        lemma_members(ps, conv, c, n - 1, j);
        let w = equity::members_spec(ps, conv, c, n - 1);
        if lists(w, j) {
            let i = choose|i: int| 0 <= i < w.len() && #[trigger] w[i] == j;
            assert(v[i] == j);
        }
        if equity::belongs(ps, conv, n - 1, c) {
            assert(v[v.len() - 1] == n - 1);
            if lists(v, j) && j != n - 1 {
                let i = choose|i: int| 0 <= i < v.len() && #[trigger] v[i] == j;
                assert(w[i] == j);
            }
        }
    }
}

proof fn lemma_strays(ps: Seq<Parsed>, conv: Seq<bool>, n: int, j: int)
    requires
        0 <= n <= usize::MAX,
    ensures
        lists(equity::strays_spec(ps, conv, n), j) == (0 <= j < n && !equity::assigned(
            ps,
            conv,
            j,
        )),
    decreases n,
{
    let v = equity::strays_spec(ps, conv, n);
    if n > 0 {
        lemma_strays(ps, conv, n - 1, j);
        let w = equity::strays_spec(ps, conv, n - 1);
        if lists(w, j) {
            let i = choose|i: int| 0 <= i < w.len() && #[trigger] w[i] == j;
            assert(v[i] == j);
        }
        if !equity::assigned(ps, conv, n - 1) {
            assert(v[v.len() - 1] == n - 1);
            if lists(v, j) && j != n - 1 {
                let i = choose|i: int| 0 <= i < v.len() && #[trigger] v[i] == j;
                assert(w[i] == j);
            }
        }
    }
}

/// How many postings before one convert.
pub open spec fn converting(conv: Seq<bool>, n: int) -> int
    decreases n,
{
    if n <= 0 {
        0
    } else {
        converting(conv, n - 1) + if conv[n - 1] {
            1int
        } else {
            0
        }
    }
}

proof fn lemma_converting(conv: Seq<bool>, a: int, b: int)
    requires
        0 <= a <= b,
    ensures
        0 <= converting(conv, a) <= converting(conv, b),
        a < b && conv[a] ==> converting(conv, a) < converting(conv, b),
    decreases b,
{
    if a < b {
        lemma_converting(conv, a, b - 1);
    } else if a > 0 {
        lemma_converting(conv, a - 1, b - 1);
    }
}

/// Whether a list of postings is that of a conversion, by its number.
pub open spec fn led_by(
    ps: Seq<Parsed>,
    conv: Seq<bool>,
    postings: Seq<usize>,
    g: int,
    c: int,
) -> bool {
    0 <= c < conv.len() && conv[c] && converting(conv, c) == g && postings == equity::members_spec(
        ps,
        conv,
        c,
        ps.len() as int,
    )
}

/// Whether a list of postings is that of a conversion before `n`.
pub open spec fn is_led(
    ps: Seq<Parsed>,
    conv: Seq<bool>,
    postings: Seq<usize>,
    g: int,
    n: int,
) -> bool {
    exists|c: int| c < n && #[trigger] led_by(ps, conv, postings, g, c)
}

/// Whether a conversion has its group.
pub open spec fn leads(
    ps: Seq<Parsed>,
    conv: Seq<bool>,
    ctx: Ctx,
    amounts: Seq<Seq<char>>,
    groups: Seq<equity::Group>,
    c: int,
) -> bool {
    let g = converting(conv, c);
    0 <= g < groups.len() && groups[g].postings == equity::members_spec(
        ps,
        conv,
        c,
        ps.len() as int,
    ) && equity::pair_spec(ps[c], ctx, amounts) == Some(groups[g].equity)
}

/// The group of each conversion.
proof fn lemma_groups(
    ps: Seq<Parsed>,
    conv: Seq<bool>,
    ctx: Ctx,
    amounts: Seq<Seq<char>>,
    n: int,
)
    requires
        0 <= n <= conv.len(),
    ensures
        equity::groups_before_spec(ps, conv, ctx, amounts, n) matches Some(groups) ==> {
            &&& groups.len() == converting(conv, n)
            &&& forall|c: int|
                0 <= c < n && conv[c] ==> #[trigger] leads(ps, conv, ctx, amounts, groups, c)
            &&& forall|g: int|
                0 <= g < groups.len() ==> is_led(ps, conv, (#[trigger] groups[g]).postings, g, n)
        },
    decreases n,
{
    if n > 0 {
        lemma_groups(ps, conv, ctx, amounts, n - 1);
        if let Some(groups) = equity::groups_before_spec(ps, conv, ctx, amounts, n) {
            let before = equity::groups_before_spec(ps, conv, ctx, amounts, n - 1)->0;
            assert(converting(conv, n) == converting(conv, n - 1) + if conv[n - 1] {
                1int
            } else {
                0
            });
            assert forall|c: int| 0 <= c < n && conv[c] implies #[trigger] leads(
                ps,
                conv,
                ctx,
                amounts,
                groups,
                c,
            ) by {
                if c < n - 1 {
                    assert(leads(ps, conv, ctx, amounts, before, c));
                    assert(groups[converting(conv, c)] == before[converting(conv, c)]);
                }
            }
            assert forall|g: int| 0 <= g < groups.len() implies is_led(
                ps,
                conv,
                (#[trigger] groups[g]).postings,
                g,
                n,
            ) by {
                if g < before.len() {
                    assert(groups[g] == before[g]);
                    assert(is_led(ps, conv, before[g].postings, g, n - 1));
                    let c = choose|c: int|
                        c < n - 1 && #[trigger] led_by(ps, conv, before[g].postings, g, c);
                    assert(led_by(ps, conv, groups[g].postings, g, c));
                } else {
                    assert(led_by(ps, conv, groups[g].postings, g, n - 1));
                }
            }
        }
    }
}

/// Every posting is laid out once: with one conversion, or apart from them all.
/// A posting that converts leads a conversion of its own, and one that does not
/// goes with a conversion only where its commodity is the cost of that one alone.
pub proof fn every_posting_is_laid_out_once(amounts: Seq<Seq<char>>, ctx: Ctx, j: int)
    requires
        amounts.len() <= usize::MAX,
        0 <= j < amounts.len(),
    ensures
        equity::layout_spec(amounts, ctx) matches Some(l) ==> {
            &&& forall|g: int, h: int|
                0 <= g < h < l.groups.len() ==> !(lists((#[trigger] l.groups[g]).postings, j)
                    && lists((#[trigger] l.groups[h]).postings, j))
            &&& lists(l.unassigned, j) == !(exists|g: int|
                0 <= g < l.groups.len() && lists((#[trigger] l.groups[g]).postings, j))
            &&& equity::converts_spec(amounts[j]) ==> !lists(l.unassigned, j)
        },
{
    if let Some(l) = equity::layout_spec(amounts, ctx) {
        let n = amounts.len() as int;
        let conv = amounts.map_values(|a: Seq<char>| equity::converts_spec(a));
        let ps = equity::parsed_all_spec(amounts, ctx)->0;
        lemma_parsed_len(amounts, ctx);
        lemma_groups(ps, conv, ctx, amounts, n);
        lemma_strays(ps, conv, n, j);
        assert forall|g: int, h: int| 0 <= g < h < l.groups.len() implies !(lists(
            (#[trigger] l.groups[g]).postings,
            j,
        ) && lists((#[trigger] l.groups[h]).postings, j)) by {
            assert(is_led(ps, conv, l.groups[g].postings, g, n));
            let c = choose|c: int| c < n && #[trigger] led_by(ps, conv, l.groups[g].postings, g, c);
            assert(is_led(ps, conv, l.groups[h].postings, h, n));
            let d = choose|d: int| d < n && #[trigger] led_by(ps, conv, l.groups[h].postings, h, d);
            lemma_members(ps, conv, c, n, j);
            lemma_members(ps, conv, d, n, j);
            if equity::belongs(ps, conv, j, c) && equity::belongs(ps, conv, j, d) {
                if !conv[j] {
                    assert(equity::pays_in(ps, conv, d, ps[j].commodity));
                    assert(c == d);
                }
            }
        }
        let somewhere = exists|g: int|
            0 <= g < l.groups.len() && lists((#[trigger] l.groups[g]).postings, j);
        if equity::assigned(ps, conv, j) {
            let c = choose|c: int| 0 <= c < ps.len() && #[trigger] equity::belongs(ps, conv, j, c);
            lemma_members(ps, conv, c, n, j);
            let g = converting(conv, c);
            assert(conv[c]);
            assert(leads(ps, conv, ctx, amounts, l.groups, c));
            assert(lists(l.groups[g].postings, j));
        }
        if somewhere {
            let g = choose|g: int|
                0 <= g < l.groups.len() && lists((#[trigger] l.groups[g]).postings, j);
            assert(is_led(ps, conv, l.groups[g].postings, g, n));
            let c = choose|c: int| c < n && #[trigger] led_by(ps, conv, l.groups[g].postings, g, c);
            lemma_members(ps, conv, c, n, j);
            assert(equity::belongs(ps, conv, j, c));
        }
        if equity::converts_spec(amounts[j]) {
            assert(conv[j]);
            assert(equity::belongs(ps, conv, j, j));
        }
    }
}

proof fn lemma_parsed_len(amounts: Seq<Seq<char>>, ctx: Ctx)
    ensures
        equity::parsed_all_spec(amounts, ctx) matches Some(ps) ==> ps.len() == amounts.len(),
    decreases amounts.len(),
{
    if amounts.len() > 0 {
        lemma_parsed_len(amounts.drop_last(), ctx);
    }
}

/// The pair of equity postings of a conversion cancels it: the first takes back
/// what the posting says, and the second what it costs, where both commodities
/// declare styles in which an amount reads as what it is.
pub proof fn a_pair_cancels_its_conversion(
    p: Parsed,
    ctx: Ctx,
    amounts: Seq<Seq<char>>,
)
    requires
        settle::clean(ctx),
        p.value.representable(),
        p.contributes.0.representable(),
        sums::writable(p.commodity, ctx),
        sums::writable(p.contributes.1, ctx),
    ensures
        ({
            &&& equity::pair_spec(p, ctx, amounts) matches Some(pair)
            &&& pair.len() == 2
            &&& amount::parse_amount_spec(pair[0], ctx) matches Some(a)
            &&& a.contributes.1 == p.commodity
            &&& a.contributes.0.equals(decimal::negated(p.value))
            &&& amount::parse_amount_spec(pair[1], ctx) matches Some(b)
            &&& b.contributes.1 == p.contributes.1
            &&& b.contributes.0.equals(p.contributes.0)
        }),
{
    balance::lemma_negated_none(p.value);
    let n = decimal::negated(p.value);
    balance::a_legible_amount_is_generated(n, p.commodity, ctx, amounts);
    balance::a_generated_amount_reads_back(n, p.commodity, ctx, amounts);
    balance::a_legible_amount_is_generated(p.contributes.0, p.contributes.1, ctx, amounts);
    balance::a_generated_amount_reads_back(p.contributes.0, p.contributes.1, ctx, amounts);
}

} // verus!
