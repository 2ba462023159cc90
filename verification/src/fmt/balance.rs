//! An amount that is filled in balances its group.

use vstd::prelude::*;
use crate::amount::{self, Ctx};
use crate::decimal::{self, Num};
use crate::fmt::explicit;
use crate::fmt::settle;
use crate::fmt::steady;
use crate::lex;
use crate::numerals;
use crate::restyle::{self, Places};
use crate::style::Style;
use crate::text;

verus! {

// ---- numbers ----

/// A number written with more decimal places, a zero at a time.
pub proof fn lemma_at_normal(n: Num, scale: nat)
    requires
        n.mantissa != 0,
        scale >= n.scale,
    ensures
        n.normal().mantissa != 0,
        n.normal().scale <= n.scale,
        n.at(scale) == n.normal().at(scale),
    decreases n.scale,
{
    if n.scale > 0 && n.mantissa % 10 == 0 {
        let m = Num { mantissa: n.mantissa / 10, scale: (n.scale - 1) as nat };
        lemma_at_normal(m, scale);
        let p = decimal::pow10((scale - n.scale) as nat);
        assert(decimal::pow10((scale - m.scale) as nat) == 10 * p);
        assert(n.mantissa == 10 * m.mantissa);
        assert(n.mantissa * p == m.mantissa * (10 * p)) by (nonlinear_arith)
            requires
                n.mantissa == 10 * m.mantissa,
        ;
    }
}

/// The normal form of a number and of its negation.
pub proof fn lemma_negated_normal(n: Num)
    ensures
        decimal::negated(n).normal() == decimal::negated(n.normal()) || n.mantissa == 0,
    decreases n.scale,
{
    if n.mantissa != 0 && n.scale > 0 && n.mantissa % 10 == 0 {
        let m = Num { mantissa: n.mantissa / 10, scale: (n.scale - 1) as nat };
        lemma_negated_normal(m);
        assert((-n.mantissa) % 10 == 0);
        assert((-n.mantissa) / 10 == -m.mantissa);
        assert(decimal::negated(m) == Num { mantissa: -m.mantissa, scale: m.scale });
    } else if n.mantissa != 0 && n.scale > 0 {
        assert((-n.mantissa) % 10 != 0);
    }
}

/// A number and one with the value of its negation add up to zero.
proof fn lemma_cancels(a: Num, u: Num)
    requires
        a.representable(),
        u.representable(),
        u.equals(decimal::negated(a)),
    ensures
        decimal::sum_of(a, u) matches Some(z) && z.mantissa == 0,
{
    if a.mantissa == 0 {
        assert(decimal::negated(a).normal() == Num::zero());
        if u.mantissa != 0 {
            lemma_at_normal(u, u.scale);
        }
    } else {
        let s = decimal::wider(a, u);
        let b = decimal::negated(a);
        if u.mantissa == 0 {
            lemma_at_normal(b, s);
        }
        lemma_at_normal(u, s);
        lemma_at_normal(b, s);
        assert(u.at(s) == b.at(s));
        let p = decimal::pow10((s - a.scale) as nat);
        assert((-a.mantissa) * p == -(a.mantissa * p)) by (nonlinear_arith);
        assert(a.at(s) == -u.at(s));
        assert(decimal::pow10(0) == 1);
        assert(a.at(a.scale) == a.mantissa * 1);
        assert(u.at(u.scale) == u.mantissa * 1);
    }
}

// ---- amounts ----

/// A value with the decimal places a generated amount has is the same value,
/// and is written the same again.
pub proof fn lemma_generated_value(value: Num, st: Style)
    requires
        value.representable(),
    ensures
        ({
            let u = value.rescaled(restyle::generated_places(value, st));
            &&& u.representable()
            &&& u.equals(value)
            &&& (u.mantissa < 0) == (value.mantissa < 0)
            &&& u.rescaled(Places::AtLeastDeclared.places_of(u, st)) == u
        }),
{
    let n = restyle::generated_places(value, st);
    let u = value.rescaled(n);
    restyle::lemma_normal_exact(value, n);
    numerals::lemma_exactly(value, n);
    assert(decimal::pow10(0) == 1);
    assert(u.mantissa / 1 == u.mantissa);
    if value.mantissa != 0 && n > value.scale {
        numerals::lemma_grown(value, n);
        let m = Places::AtLeastDeclared.places_of(u, st);
        assert(n == st.floor());
        if m > u.scale {
            assert(m == n);
            assert(u.grown(m) == u);
        }
    }
}

/// A generated amount reads as the value and the commodity it was generated
/// from.
pub proof fn a_generated_amount_reads_back(
    value: Num,
    name: Seq<char>,
    ctx: Ctx,
    siblings: Seq<Seq<char>>,
)
    requires
        value.representable(),
    ensures
        restyle::generated_spec(value, name, ctx, siblings) matches Some(t) ==> {
            &&& !lex::is_blank_spec(t)
            &&& amount::parse_amount_spec(t, ctx) matches Some(p)
            &&& p.contributes == (p.value, name)
            &&& p.commodity == name
            &&& p.value.equals(value)
            &&& p.value.representable()
        },
{
    if let Some(t) = restyle::generated_spec(value, name, ctx, siblings) {
        let st = restyle::style_for_spec(value, name, ctx, siblings);
        let n = restyle::generated_places(value, st);
        assert(t == restyle::render_styled_spec(value, name, st, n));
        lemma_generated_value(value, st);
        steady::lemma_reads_back(value, name, st, n, ctx);
        if lex::is_blank_spec(t) {
            crate::tokens::lemma_words_white(t);
        }
    }
}

/// An amount of a commodity that declares a legible style is always generated.
pub proof fn a_legible_amount_is_generated(
    value: Num,
    name: Seq<char>,
    ctx: Ctx,
    siblings: Seq<Seq<char>>,
)
    requires
        settle::clean(ctx),
        ctx.styles.dom().contains(name),
        steady::legible(name, ctx.styles[name]),
        !name.contains(';'),
        value.representable(),
    ensures
        restyle::generated_spec(value, name, ctx, siblings) is Some,
{
    let st = ctx.styles[name].under(ctx.decimal_mark);
    let n = restyle::generated_places(value, st);
    numerals::lemma_under(ctx.styles[name], ctx.decimal_mark);
    lemma_generated_value(value, st);
    numerals::a_written_number_reads_back(value, st, n);
    steady::lemma_legible_at(value, name, st, n, ctx);
}

// ---- sums ----

/// Whether no commodity occurs twice.
pub open spec fn distinct(sums: Seq<(Seq<char>, Num)>) -> bool {
    forall|i: int, j: int|
        0 <= i < j < sums.len() ==> (#[trigger] sums[i]).0 != (#[trigger] sums[j]).0
}

/// Adding a value keeps the commodities before it, and each of them once.
proof fn lemma_add_distinct(sums: Seq<(Seq<char>, Num)>, name: Seq<char>, value: Num)
    requires
        distinct(sums),
    ensures
        amount::add_spec(sums, name, value) matches Some(out) ==> {
            &&& distinct(out)
            &&& out.len() >= sums.len()
            &&& forall|i: int| 0 <= i < sums.len() ==> (#[trigger] out[i]).0 == sums[i].0
            &&& forall|i: int| sums.len() <= i < out.len() ==> (#[trigger] out[i]).0 == name
        },
    decreases sums.len(),
{
    if sums.len() > 0 {
        let tail = sums.skip(1);
        assert(distinct(tail)) by {
            assert forall|i: int, j: int| 0 <= i < j < tail.len() implies (#[trigger] tail[i]).0
                != (#[trigger] tail[j]).0 by {
                assert(sums[i + 1].0 != sums[j + 1].0);
            }
        }
        lemma_add_distinct(tail, name, value);
        if let Some(out) = amount::add_spec(sums, name, value) {
            if sums[0].0 == name {
                assert forall|i: int| 0 <= i < sums.len() implies (#[trigger] out[i]).0
                    == sums[i].0 by {
                    if i > 0 {
                        assert(out[i] == tail[i - 1]);
                    }
                }
                assert forall|i: int, j: int| 0 <= i < j < out.len() implies (
                #[trigger] out[i]).0 != (#[trigger] out[j]).0 by {
                    assert(sums[i].0 != sums[j].0);
                }
            } else {
                let later = amount::add_spec(tail, name, value)->0;
                assert forall|i: int| 0 <= i < sums.len() implies (#[trigger] out[i]).0
                    == sums[i].0 by {
                    if i > 0 {
                        assert(out[i] == later[i - 1]);
                        assert(later[i - 1].0 == tail[i - 1].0);
                    }
                }
                assert forall|i: int| sums.len() <= i < out.len() implies (#[trigger] out[i]).0
                    == name by {
                    assert(out[i] == later[i - 1]);
                }
                assert forall|i: int, j: int| 0 <= i < j < out.len() implies (
                #[trigger] out[i]).0 != (#[trigger] out[j]).0 by {
                    assert(out[j] == later[j - 1]);
                    if i > 0 {
                        assert(out[i] == later[i - 1]);
                        assert(later[i - 1].0 != later[j - 1].0);
                    } else if j - 1 < tail.len() {
                        assert(later[j - 1].0 == tail[j - 1].0);
                        assert(sums[0].0 != sums[j].0);
                    }
                }
            }
        }
    }
}

/// Sums hold every commodity once.
pub proof fn lemma_sums_distinct(amounts: Seq<Seq<char>>, ctx: Ctx, face: bool)
    ensures
        amount::sums_spec(amounts, ctx, face) matches Some(sums) ==> distinct(sums),
    decreases amounts.len(),
{
    if amounts.len() > 0 {
        lemma_sums_distinct(amounts.drop_last(), ctx, face);
        if let Some(before) = amount::sums_spec(amounts.drop_last(), ctx, face) {
            if !lex::is_blank_spec(amounts.last()) {
                if let Some(p) = amount::parse_amount_spec(amounts.last(), ctx) {
                    if face {
                        lemma_add_distinct(before, p.commodity, p.value);
                    } else {
                        lemma_add_distinct(before, p.contributes.1, p.contributes.0);
                    }
                }
            }
        }
    }
}

/// A value of a commodity that has a sum is added to that sum alone.
proof fn lemma_add_at(sums: Seq<(Seq<char>, Num)>, i: int, value: Num)
    requires
        distinct(sums),
        0 <= i < sums.len(),
    ensures
        amount::add_spec(sums, sums[i].0, value) == (match decimal::sum_of(sums[i].1, value) {
            None => None::<Seq<(Seq<char>, Num)>>,
            Some(n) => Some(sums.update(i, (sums[i].0, n))),
        }),
{
    let name = sums[i].0;
    amount::lemma_add_past(sums, i, name, value);
    let later = sums.skip(i);
    assert(later[0] == sums[i]);
    if let Some(n) = decimal::sum_of(sums[i].1, value) {
        assert(sums.take(i) + (seq![(name, n)] + later.skip(1)) =~= sums.update(i, (name, n)));
    }
}

/// The sums whose first `n` entries are spent.
pub open spec fn spent(sums: Seq<(Seq<char>, Num)>, out: Seq<(Seq<char>, Num)>, n: int) -> bool {
    &&& out.len() == sums.len()
    &&& forall|i: int| 0 <= i < sums.len() ==> (#[trigger] out[i]).0 == sums[i].0
    &&& forall|i: int| 0 <= i < n ==> (#[trigger] out[i]).1.mantissa == 0
    &&& forall|i: int| n <= i < sums.len() ==> #[trigger] out[i] == sums[i]
}

/// Whether each sum fits.
pub open spec fn all_fit(sums: Seq<(Seq<char>, Num)>) -> bool {
    forall|i: int| 0 <= i < sums.len() ==> (#[trigger] sums[i]).1.representable()
}

pub proof fn lemma_add_fits(sums: Seq<(Seq<char>, Num)>, name: Seq<char>, value: Num)
    requires
        all_fit(sums),
        value.representable(),
    ensures
        amount::add_spec(sums, name, value) matches Some(out) ==> all_fit(out),
    decreases sums.len(),
{
    if sums.len() > 0 {
        let tail = sums.skip(1);
        assert forall|i: int| 0 <= i < tail.len() implies (#[trigger] tail[i]).1.representable() by {
            assert(sums[i + 1].1.representable());
        }
        assert(sums[0].1.representable());
        lemma_add_fits(tail, name, value);
        if let Some(out) = amount::add_spec(sums, name, value) {
            if sums[0].0 == name {
                lemma_sum_fits(sums[0].1, value);
                assert forall|i: int| 0 <= i < out.len() implies (
                #[trigger] out[i]).1.representable() by {
                    if i > 0 {
                        assert(out[i] == tail[i - 1]);
                    }
                }
            } else {
                let later = amount::add_spec(tail, name, value)->0;
                assert forall|i: int| 0 <= i < out.len() implies (
                #[trigger] out[i]).1.representable() by {
                    if i > 0 {
                        assert(out[i] == later[i - 1]);
                    }
                }
            }
        }
    }
}

proof fn lemma_sum_fits(a: Num, b: Num)
    requires
        a.representable(),
        b.representable(),
    ensures
        decimal::sum_of(a, b) matches Some(n) ==> n.representable(),
{
}

/// Whatever an amount contributes fits.
pub proof fn lemma_contribution_fits(field: Seq<char>, ctx: Ctx)
    ensures
        amount::parse_amount_spec(field, ctx) matches Some(p) ==> p.value.representable()
            && p.contributes.0.representable(),
{
    let (num, name, rest) = lex::split_amount_spec(text::words_spec(field));
    steady::lemma_face_fits(num, name, ctx);
    if rest.len() > 0 {
        let (num2, name2, _) = lex::split_amount_spec(amount::operand_spec(rest));
        steady::lemma_face_fits(num2, name2, ctx);
    }
}

/// Every sum fits.
pub proof fn lemma_sums_fit(amounts: Seq<Seq<char>>, ctx: Ctx)
    ensures
        amount::sums_spec(amounts, ctx, false) matches Some(sums) ==> all_fit(sums),
    decreases amounts.len(),
{
    if amounts.len() > 0 {
        lemma_sums_fit(amounts.drop_last(), ctx);
        lemma_contribution_fits(amounts.last(), ctx);
        if let Some(before) = amount::sums_spec(amounts.drop_last(), ctx, false) {
            if !lex::is_blank_spec(amounts.last()) {
                if let Some(p) = amount::parse_amount_spec(amounts.last(), ctx) {
                    lemma_add_fits(before, p.contributes.1, p.contributes.0);
                }
            }
        }
    }
}

pub proof fn lemma_negated_none(a: Num)
    requires
        a.representable(),
    ensures
        decimal::difference_of(Num::zero(), a) == Some(decimal::negated(a)),
        decimal::negated(a).representable(),
{
}

/// Adding the negated sums up to a point leaves those at zero.
#[verifier::rlimit(60)]
proof fn lemma_fill_upto(
    siblings: Seq<Seq<char>>,
    sums: Seq<(Seq<char>, Num)>,
    ctx: Ctx,
    n: int,
)
    requires
        amount::sums_spec(siblings, ctx, false) == Some(sums),
        all_fit(sums),
        distinct(sums),
        0 <= n <= sums.len(),
    ensures
        explicit::negated_spec(sums.take(n)) matches Some(neg) && (explicit::all_readable(
            neg,
            ctx,
            siblings,
        ) ==> (amount::sums_spec(
            siblings + explicit::rendered_spec(neg, ctx, siblings),
            ctx,
            false,
        ) matches Some(out) && spent(sums, out, n))),
    decreases n,
{
    if n == 0 {
        let neg = Seq::<(Seq<char>, Num)>::empty();
        assert(sums.take(0) =~= neg);
        assert(explicit::negated_spec(sums.take(0)) == Some(neg));
        let r = explicit::rendered_spec(neg, ctx, siblings);
        assert(siblings + r =~= siblings);
    } else {
        let m = n - 1;
        lemma_fill_upto(siblings, sums, ctx, m);
        assert(sums.take(n).drop_last() =~= sums.take(m));
        assert(sums.take(n).last() == sums[m]);
        let before = explicit::negated_spec(sums.take(m))->0;
        let rb = explicit::rendered_spec(before, ctx, siblings);
        let ob = amount::sums_spec(siblings + rb, ctx, false)->0;
        let (name, v) = sums[m];
        assert(sums[m].1.representable());
        lemma_negated_none(v);
        let w = decimal::negated(v);
        let neg = before.push((name, w));
        if v.mantissa == 0 {
            if explicit::all_readable(before, ctx, siblings) {
                assert(spent(sums, ob, n)) by {
                    assert(ob[m] == sums[m]);
                }
            }
        } else if explicit::all_readable(neg, ctx, siblings) {
            assert(explicit::all_readable(before, ctx, siblings)) by {
                assert forall|i: int| 0 <= i < before.len() implies restyle::generated_spec(
                    (#[trigger] before[i]).1,
                    before[i].0,
                    ctx,
                    siblings,
                ) is Some by {
                    assert(neg[i] == before[i]);
                }
            }
            assert(neg[before.len() as int] == (name, w));
            assert(explicit::negated_spec(sums.take(n)) == Some(neg));
            let r = explicit::rendered_spec(neg, ctx, siblings);
            let t = restyle::render_like_spec(w, name, ctx, siblings);
            assert(r =~= rb.push(t));
            let all = siblings + r;
            assert(all.drop_last() =~= siblings + rb);
            assert(all.last() == t);
            a_generated_amount_reads_back(w, name, ctx, siblings);
            let p = amount::parse_amount_spec(t, ctx)->0;
            assert(distinct(ob)) by {
                assert forall|i: int, j: int| 0 <= i < j < ob.len() implies (
                #[trigger] ob[i]).0 != (#[trigger] ob[j]).0 by {
                    assert(ob[i].0 == sums[i].0 && ob[j].0 == sums[j].0);
                }
            }
            assert(ob[m] == sums[m]);
            lemma_add_at(ob, m, p.value);
            lemma_cancels(v, p.value);
        }
    }
}

proof fn lemma_all_zero(sums: Seq<(Seq<char>, Num)>)
    requires
        forall|i: int| 0 <= i < sums.len() ==> (#[trigger] sums[i]).1.mantissa == 0,
    ensures
        amount::nonzero_spec(sums) == Seq::<(Seq<char>, Num)>::empty(),
    decreases sums.len(),
{
    if sums.len() > 0 {
        let f = sums.drop_last();
        assert forall|i: int| 0 <= i < f.len() implies (#[trigger] f[i]).1.mantissa == 0 by {
            assert(f[i] == sums[i]);
        }
        lemma_all_zero(f);
        assert(sums[sums.len() - 1].1.mantissa == 0);
    }
}

/// What is missing fits.
pub proof fn lemma_missing_fits(
    siblings: Seq<Seq<char>>,
    sums: Seq<(Seq<char>, Num)>,
    ctx: Ctx,
)
    requires
        amount::sums_spec(siblings, ctx, false) == Some(sums),
    ensures
        explicit::missing_spec(sums) matches Some(due) ==> due.len() > 0 && all_fit(due),
{
    lemma_sums_fit(siblings, ctx);
    lemma_negated_names(sums, sums.len() as int);
    assert(sums.take(sums.len() as int) =~= sums);
}

/// What is filled in balances: with the amounts of the inferred posting, the
/// amounts it is inferred from add up to zero in every commodity. Nothing is
/// rounded away on paper, and no amount is left over.
pub proof fn a_filled_in_amount_balances(
    siblings: Seq<Seq<char>>,
    sums: Seq<(Seq<char>, Num)>,
    ctx: Ctx,
)
    requires
        amount::sums_spec(siblings, ctx, false) == Some(sums),
    ensures
        explicit::remainder_spec(sums, ctx, siblings) matches Some(filled)
            ==> amount::imbalance_spec(siblings + filled, ctx, false) == Some(
            Seq::<(Seq<char>, Num)>::empty(),
        ),
{
    if explicit::remainder_spec(sums, ctx, siblings) is Some {
        let n = sums.len() as int;
        lemma_sums_distinct(siblings, ctx, false);
        lemma_sums_fit(siblings, ctx);
        lemma_fill_upto(siblings, sums, ctx, n);
        assert(sums.take(n) =~= sums);
        let neg = explicit::negated_spec(sums)->0;
        let r = explicit::rendered_spec(neg, ctx, siblings);
        if neg.len() > 0 {
            lemma_all_zero(amount::sums_spec(siblings + r, ctx, false)->0);
        } else {
            assert(siblings + r =~= siblings);
            let due = explicit::missing_spec(sums)->0;
            let name = sums[0].0;
            let zero = Num::zero();
            let t = restyle::render_like_spec(zero, name, ctx, siblings);
            assert(due[0] == (name, zero));
            assert(explicit::rendered_spec(due, ctx, siblings) =~= seq![t]);
            a_generated_amount_reads_back(zero, name, ctx, siblings);
            let p = amount::parse_amount_spec(t, ctx)->0;
            let all = siblings + seq![t];
            assert(all.drop_last() =~= siblings);
            assert(all.last() == t);
            lemma_add_at(sums, 0, p.value);
            assert(sums[0].1.mantissa == 0);
            assert(decimal::negated(sums[0].1).normal() == Num::zero());
            lemma_cancels(sums[0].1, p.value);
            lemma_all_zero(amount::sums_spec(all, ctx, false)->0);
        }
    }
}

/// What is missing is filled in where each of its commodities declares a
/// legible style.
pub proof fn a_legible_remainder_is_filled_in(
    siblings: Seq<Seq<char>>,
    sums: Seq<(Seq<char>, Num)>,
    ctx: Ctx,
)
    requires
        settle::clean(ctx),
        amount::sums_spec(siblings, ctx, false) == Some(sums),
        sums.len() > 0,
        forall|i: int|
            0 <= i < sums.len() ==> {
                &&& ctx.styles.dom().contains((#[trigger] sums[i]).0)
                &&& steady::legible(sums[i].0, ctx.styles[sums[i].0])
                &&& !sums[i].0.contains(';')
            },
    ensures
        explicit::remainder_spec(sums, ctx, siblings) is Some,
{
    lemma_sums_fit(siblings, ctx);
    lemma_negated_names(sums, sums.len() as int);
    assert(sums.take(sums.len() as int) =~= sums);
    let due = explicit::missing_spec(sums)->0;
    assert forall|i: int| 0 <= i < due.len() implies restyle::generated_spec(
        (#[trigger] due[i]).1,
        due[i].0,
        ctx,
        siblings,
    ) is Some by {
        let neg = explicit::negated_spec(sums)->0;
        if neg.len() > 0 {
            assert(due[i] == neg[i]);
            let j = choose|j: int| 0 <= j < sums.len() && (#[trigger] sums[j]).0 == neg[i].0;
            assert(sums[j].0 == due[i].0);
        } else {
            assert(due[i].0 == sums[0].0);
        }
        a_legible_amount_is_generated(due[i].1, due[i].0, ctx, siblings);
    }
}

/// The negated sums are of the commodities of the sums, and fit.
proof fn lemma_negated_names(sums: Seq<(Seq<char>, Num)>, n: int)
    requires
        all_fit(sums),
        0 <= n <= sums.len(),
    ensures
        explicit::negated_spec(sums.take(n)) matches Some(neg) && (forall|i: int|
            0 <= i < neg.len() ==> (#[trigger] neg[i]).1.representable() && exists|j: int|
                0 <= j < sums.len() && (#[trigger] sums[j]).0 == neg[i].0),
    decreases n,
{
    if n > 0 {
        lemma_negated_names(sums, n - 1);
        assert(sums.take(n).drop_last() =~= sums.take(n - 1));
        assert(sums.take(n).last() == sums[n - 1]);
        assert(sums[n - 1].1.representable());
        lemma_negated_none(sums[n - 1].1);
        let before = explicit::negated_spec(sums.take(n - 1))->0;
        let neg = explicit::negated_spec(sums.take(n))->0;
        assert forall|i: int| 0 <= i < neg.len() implies (#[trigger] neg[i]).1.representable()
            && exists|j: int| 0 <= j < sums.len() && (#[trigger] sums[j]).0 == neg[i].0 by {
            if i < before.len() {
                assert(neg[i] == before[i]);
            } else {
                assert(sums[n - 1].0 == neg[i].0);
            }
        }
    }
}

} // verus!
