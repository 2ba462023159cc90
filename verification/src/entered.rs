//! What an entered amount still says once it is restyled.

use vstd::prelude::*;
use crate::amount::{self, Ctx};
use crate::decimal::{self, Num};
use crate::fmt::balance;
use crate::fmt::reread;
use crate::fmt::settle;
use crate::fmt::steady;
use crate::lex;
use crate::restyle::{self, Places};
use crate::text;
use crate::tokens;

verus! {

// ---- values ----

pub proof fn lemma_pow10_sum(a: nat, b: nat)
    ensures
        decimal::pow10(a + b) == decimal::pow10(a) * decimal::pow10(b),
    decreases a,
{
    let p = decimal::pow10(a);
    let q = decimal::pow10(b);
    if a == 0 {
        assert(1 * q == q);
    } else {
        lemma_pow10_sum((a - 1) as nat, b);
        let r = decimal::pow10((a - 1) as nat);
        assert((a + b - 1) as nat == (a - 1) as nat + b);
        assert(decimal::pow10(a + b) == 10 * decimal::pow10((a + b - 1) as nat));
        assert(10 * (r * q) == (10 * r) * q) by (nonlinear_arith);
    }
}

/// Whether a number has no zero at the end of its decimal places.
pub open spec fn trimmed(n: Num) -> bool {
    n.mantissa != 0 && (n.scale == 0 || n.mantissa % 10 != 0)
}

proof fn lemma_trimmed(n: Num)
    requires
        n.mantissa != 0,
    ensures
        trimmed(n.normal()),
    decreases n.scale,
{
    if n.scale > 0 && n.mantissa % 10 == 0 {
        lemma_trimmed(Num { mantissa: n.mantissa / 10, scale: (n.scale - 1) as nat });
    }
}

/// Of two trimmed numbers with the same value neither has more decimal places.
proof fn lemma_no_wider(a: Num, b: Num, s: nat)
    requires
        trimmed(a),
        trimmed(b),
        a.scale <= s,
        b.scale <= s,
        a.at(s) == b.at(s),
    ensures
        b.scale <= a.scale,
{
    if a.scale < b.scale {
        let d = (b.scale - a.scale) as nat;
        let r = (s - b.scale) as nat;
        let p = decimal::pow10(d);
        let q = decimal::pow10(r);
        let h = decimal::pow10((d - 1) as nat);
        lemma_pow10_sum(d, r);
        restyle::lemma_pow10_pos(r);
        assert((s - a.scale) as nat == d + r);
        let m = a.mantissa;
        let k = b.mantissa;
        assert(m * (p * q) == k * q);
        assert(k == m * p) by (nonlinear_arith)
            requires
                m * (p * q) == k * q,
                q > 0,
        ;
        let z = m * h;
        assert(m * p == 10 * z) by (nonlinear_arith)
            requires
                p == 10 * h,
                z == m * h,
        ;
        assert(k % 10 == 0);
    }
}

/// The value of a number decides its normal form.
proof fn lemma_same_value(a: Num, b: Num, s: nat)
    requires
        a.mantissa != 0,
        b.mantissa != 0,
        a.scale <= s,
        b.scale <= s,
        a.at(s) == b.at(s),
    ensures
        a.equals(b),
{
    let x = a.normal();
    let y = b.normal();
    balance::lemma_at_normal(a, s);
    balance::lemma_at_normal(b, s);
    lemma_trimmed(a);
    lemma_trimmed(b);
    lemma_no_wider(x, y, s);
    lemma_no_wider(y, x, s);
    let q = decimal::pow10((s - x.scale) as nat);
    restyle::lemma_pow10_pos((s - x.scale) as nat);
    let m = x.mantissa;
    let k = y.mantissa;
    assert(m == k) by (nonlinear_arith)
        requires
            m * q == k * q,
            q > 0,
    ;
}

/// Equal numbers are nothing together.
pub proof fn lemma_zero_alike(a: Num, b: Num)
    requires
        a.equals(b),
    ensures
        (a.mantissa == 0) == (b.mantissa == 0),
{
    if a.mantissa != 0 {
        balance::lemma_at_normal(a, a.scale);
    }
    if b.mantissa != 0 {
        balance::lemma_at_normal(b, b.scale);
    }
}

/// The products of equal numbers are equal.
proof fn lemma_products(a: Num, b: Num, c: Num, d: Num)
    requires
        a.equals(c),
        b.equals(d),
    ensures
        decimal::exact_product(a, b).equals(decimal::exact_product(c, d)),
{
    lemma_zero_alike(a, c);
    lemma_zero_alike(b, d);
    if a.mantissa != 0 && b.mantissa != 0 {
        let s = decimal::wider(a, c);
        let t = decimal::wider(b, d);
        balance::lemma_at_normal(a, s);
        balance::lemma_at_normal(c, s);
        balance::lemma_at_normal(b, t);
        balance::lemma_at_normal(d, t);
        let x = decimal::exact_product(a, b);
        let y = decimal::exact_product(c, d);
        lemma_product_at(a, b, s, t);
        lemma_product_at(c, d, s, t);
        assert(x.mantissa != 0 && y.mantissa != 0) by (nonlinear_arith)
            requires
                a.mantissa != 0,
                b.mantissa != 0,
                c.mantissa != 0,
                d.mantissa != 0,
                x.mantissa == a.mantissa * b.mantissa,
                y.mantissa == c.mantissa * d.mantissa,
        ;
        lemma_same_value(x, y, s + t);
    }
}

proof fn lemma_product_at(a: Num, b: Num, s: nat, t: nat)
    requires
        a.mantissa != 0,
        b.mantissa != 0,
        a.scale <= s,
        b.scale <= t,
    ensures
        decimal::exact_product(a, b).at(s + t) == a.at(s) * b.at(t),
{
    let i = (s - a.scale) as nat;
    let j = (t - b.scale) as nat;
    let p = decimal::pow10(i);
    let q = decimal::pow10(j);
    lemma_pow10_sum(i, j);
    assert((s + t - (a.scale + b.scale)) as nat == i + j);
    let m = a.mantissa;
    let k = b.mantissa;
    assert((m * k) * (p * q) == (m * p) * (k * q)) by (nonlinear_arith);
}

proof fn lemma_abs_normal(n: Num)
    ensures
        n.abs().normal() == n.normal().abs(),
    decreases n.scale,
{
    if n.mantissa != 0 && n.scale > 0 && n.mantissa % 10 == 0 {
        let m = Num { mantissa: n.mantissa / 10, scale: (n.scale - 1) as nat };
        lemma_abs_normal(m);
        assert(n.abs().mantissa % 10 == 0);
        assert(n.abs().mantissa / 10 == m.abs().mantissa);
        assert(m.abs() == Num { mantissa: n.abs().mantissa / 10, scale: (n.scale - 1) as nat });
    } else if n.mantissa != 0 && n.scale > 0 {
        assert(n.abs().mantissa % 10 != 0);
    }
}

/// The totals that equal prices come to are equal.
proof fn lemma_totals(a: Num, b: Num)
    requires
        a.equals(b),
        a.representable(),
        b.representable(),
    ensures
        a.abs().equals(b.abs()),
        decimal::difference_of(Num::zero(), a.abs()) matches Some(x)
            && decimal::difference_of(Num::zero(), b.abs()) matches Some(y) && x.equals(y),
{
    lemma_abs_normal(a);
    lemma_abs_normal(b);
    lemma_zero_alike(a, b);
    balance::lemma_negated_normal(a.abs());
    balance::lemma_negated_normal(b.abs());
}

// ---- tokens ----

proof fn lemma_tail_words(rest: Seq<Seq<char>>, ctx: Ctx, places: Places)
    requires
        tokens::all_words(rest),
    ensures
        tokens::all_words(restyle::restyle_tail_spec(rest, ctx, places)),
    decreases rest.len(),
{
    let t = restyle::restyle_tail_spec(rest, ctx, places);
    if rest.len() == 0 {
    } else if !lex::is_rest_start_spec(rest[0]) {
        let more = rest.skip(1);
        assert forall|i: int| 0 <= i < more.len() implies tokens::is_word(#[trigger] more[i]) by {
            assert(more[i] == rest[i + 1]);
        }
        lemma_tail_words(more, ctx, places);
        let tm = restyle::restyle_tail_spec(more, ctx, places);
        assert forall|i: int| 0 <= i < t.len() implies tokens::is_word(#[trigger] t[i]) by {
            if i == 0 {
                assert(tokens::is_word(rest[0]));
            } else {
                assert(t[i] == tm[i - 1]);
            }
        }
    } else {
        let later = rest.skip(1);
        let k = lex::rest_at_spec(later);
        restyle::lemma_rest_at(later);
        let more = later.skip(k);
        assert forall|i: int| 0 <= i < more.len() implies tokens::is_word(#[trigger] more[i]) by {
            assert(more[i] == rest[i + 1 + k]);
        }
        lemma_tail_words(more, ctx, places);
        let tm = restyle::restyle_tail_spec(more, ctx, places);
        let group = text::join_spec(amount::operand_spec(rest), " "@);
        assert(tokens::is_word(rest[0]));
        settle::lemma_op_word(rest[0]);
        let op = rest[0].take(amount::op_len_spec(rest[0]));
        let written = match restyle::restyle_text_spec(group, ctx, places) {
            Some(s) => seq![op] + text::words_spec(s),
            None => seq![rest[0]] + later.take(k),
        };
        if let Some(s) = restyle::restyle_text_spec(group, ctx, places) {
            tokens::lemma_words_are_words(s);
        }
        assert forall|i: int| 0 <= i < written.len() implies tokens::is_word(
            #[trigger] written[i],
        ) by {
            match restyle::restyle_text_spec(group, ctx, places) {
                Some(s) => {
                    if i > 0 {
                        assert(written[i] == text::words_spec(s)[i - 1]);
                    }
                },
                None => {
                    assert(written[i] == rest[i]);
                },
            }
        }
        assert(t == written + tm);
        assert forall|i: int| 0 <= i < t.len() implies tokens::is_word(#[trigger] t[i]) by {
            if i < written.len() {
                assert(t[i] == written[i]);
            } else {
                assert(t[i] == tm[i - written.len()]);
            }
        }
    }
}

/// How a restyled amount falls apart, and what its face reads as.
proof fn lemma_entered_parts(field: Seq<char>, ctx: Ctx)
    requires
        amount::parse_amount_spec(field, ctx) is Some,
    ensures
        ({
            let (num, name, rest) = lex::split_amount_spec(text::words_spec(field));
            let t = restyle::restyle_tail_spec(rest, ctx, Places::AtLeastDeclared);
            let toks = text::words_spec(restyle::restyle_entered_spec(field, ctx));
            let (num2, name2, rest2) = lex::split_amount_spec(toks);
            &&& toks.len() > 0
            &&& rest2 == t
            &&& steady::starts_rest(rest)
            &&& tokens::all_words(rest)
            &&& amount::parse_face_spec(num, name, ctx) matches Some((value, commodity))
            &&& amount::parse_face_spec(num2, name2, ctx) matches Some((u, same))
            &&& same == commodity
            &&& u.equals(value)
            &&& (u.mantissa < 0) == (value.mantissa < 0)
        }),
{
    reveal_strlit(" ");
    let places = Places::AtLeastDeclared;
    let toks = text::words_spec(field);
    let (num, name, rest) = lex::split_amount_spec(toks);
    let t = restyle::restyle_tail_spec(rest, ctx, places);
    tokens::lemma_words_are_words(field);
    settle::lemma_split_parts(toks);
    lemma_tail_words(rest, ctx, places);
    steady::lemma_tail_starts(rest, ctx, places);
    assert(steady::starts_rest(rest)) by {
        if rest.len() > 0 && !lex::is_rest_start_spec(rest[0]) {
            assert(amount::op_len_spec(rest[0]) == 0);
        }
    }
    steady::lemma_restyled_again(num, name, ctx, places);
    steady::lemma_face_apart(num, name, t, ctx, places);
    steady::lemma_face_stays(num, name, rest, ctx, places);
    let none = Seq::<Seq<char>>::empty();
    let face = match restyle::restyle_pair_spec(num, name, ctx, places) {
        Some(s) => text::words_spec(s),
        None => if name.len() == 0 {
            text::words_spec(num)
        } else {
            text::words_spec(num + " "@ + name)
        },
    };
    let (n2, c2) = match restyle::restyle_fields_spec(num, name, ctx, places) {
        Some(f) => f,
        None => (num, name),
    };
    assert(face =~= reread::amount_words(n2, c2, none)) by {
        if restyle::restyle_pair_spec(num, name, ctx, places) is None && name.len() > 0 {
            tokens::lemma_words_concat(num + " "@, name);
            tokens::lemma_words_concat(num, " "@);
            tokens::lemma_words_white(" "@);
            tokens::lemma_words_one(name);
        }
    }
    let all = face + t;
    assert(all =~= reread::amount_words(n2, c2, t));
    assert(tokens::all_words(all)) by {
        match restyle::restyle_pair_spec(num, name, ctx, places) {
            Some(s) => tokens::lemma_words_are_words(s),
            None => {
                tokens::lemma_words_are_words(num);
                tokens::lemma_words_are_words(num + " "@ + name);
            },
        }
        assert forall|i: int| 0 <= i < all.len() implies tokens::is_word(#[trigger] all[i]) by {
            if i < face.len() {
                assert(all[i] == face[i]);
            } else {
                assert(all[i] == t[i - face.len()]);
            }
        }
    }
    tokens::lemma_words_join(all);
    assert(lex::split_amount_spec(all) == (n2, c2, t));
    if all.len() == 0 {
        assert(text::words_spec(n2).len() == 0);
    }
}

// ---- contributions ----

/// The quantity and the commodity that stand at the front of an amount.
pub open spec fn face_of(field: Seq<char>, ctx: Ctx) -> Option<(Num, Seq<char>)> {
    let (num, name, _) = lex::split_amount_spec(text::words_spec(field));
    amount::parse_face_spec(num, name, ctx)
}

/// What an amount with a price per unit multiplies.
pub open spec fn factors(field: Seq<char>, ctx: Ctx) -> Option<(Num, Num)> {
    let (_, _, rest) = lex::split_amount_spec(text::words_spec(field));
    if rest.len() > 0 && amount::op_len_spec(rest[0]) == 1 && rest[0][0] == '@' {
        let (num, name, _) = lex::split_amount_spec(amount::operand_spec(rest));
        match (face_of(field, ctx), amount::parse_face_spec(num, name, ctx)) {
            (Some((value, _)), Some((price, _))) => Some((value, price)),
            _ => None,
        }
    } else {
        None
    }
}

/// Whether what an amount costs can be worked out without rounding.
pub open spec fn exact_cost(field: Seq<char>, ctx: Ctx) -> bool {
    factors(field, ctx) matches Some((value, price)) ==> decimal::product_fits(value, price)
}

/// What follows the operator of a restyled tail reads as it did.
proof fn lemma_price(rest: Seq<Seq<char>>, ctx: Ctx)
    requires
        rest.len() > 0,
        lex::is_rest_start_spec(rest[0]),
        tokens::all_words(rest),
    ensures
        ({
            let t = restyle::restyle_tail_spec(rest, ctx, Places::AtLeastDeclared);
            let (num, name, _) = lex::split_amount_spec(amount::operand_spec(rest));
            let (num2, name2, _) = lex::split_amount_spec(amount::operand_spec(t));
            &&& t.len() > 0
            &&& t[0].len() > 0
            &&& t[0][0] == rest[0][0]
            &&& amount::op_len_spec(t[0]) == amount::op_len_spec(rest[0])
            &&& match amount::parse_face_spec(num, name, ctx) {
                None => amount::parse_face_spec(num2, name2, ctx) is None,
                Some((price, cost)) => amount::parse_face_spec(num2, name2, ctx) matches Some(
                    (u, same),
                ) && same == cost && u.equals(price) && price.representable()
                    && u.representable(),
            }
        }),
{
    let places = Places::AtLeastDeclared;
    let t = restyle::restyle_tail_spec(rest, ctx, places);
    let later = rest.skip(1);
    let k = lex::rest_at_spec(later);
    steady::lemma_rest_at_cut(later);
    let more = later.skip(k);
    let words = later.take(k);
    let tm = restyle::restyle_tail_spec(more, ctx, places);
    steady::lemma_tail_starts(more, ctx, places);
    let o = amount::operand_spec(rest);
    let group = text::join_spec(o, " "@);
    settle::lemma_operand(rest);
    tokens::lemma_words_join(o);
    let (num, name, _) = lex::split_amount_spec(o);
    steady::lemma_face_fits(num, name, ctx);
    steady::lemma_op(rest[0]);
    match restyle::restyle_text_spec(group, ctx, places) {
        None => {
            assert(t == seq![rest[0]] + words + tm);
            lemma_operand_is(rest[0], words, tm);
        },
        Some(s) => {
            let op = rest[0].take(amount::op_len_spec(rest[0]));
            assert(t == seq![op] + text::words_spec(s) + tm);
            steady::lemma_operand_again(group, ctx, places);
            lemma_operand_is(op, text::words_spec(s), tm);
            assert(amount::attached_spec(op) + text::words_spec(s) =~= text::words_spec(s));
        },
    }
}

pub proof fn lemma_operand_is(op: Seq<char>, words: Seq<Seq<char>>, more: Seq<Seq<char>>)
    requires
        steady::loose(words),
        steady::starts_rest(more),
    ensures
        ({
            let all = seq![op] + words + more;
            &&& all[0] == op
            &&& amount::operand_spec(all) == amount::attached_spec(op) + words
        }),
{
    let all = seq![op] + words + more;
    let later = all.skip(1);
    assert(later =~= words + more);
    steady::lemma_rest_at_is(words, more);
    assert(later.take(words.len() as int) =~= words);
}

/// Nothing that is entered changes its value: an amount in its declared styles,
/// filled out to their decimal places, reads as the amount that was typed. Its
/// value and its commodity always survive. So does what it contributes through
/// its cost, wherever that is no product, takes no rounding, or is a product of
/// the very numbers that were typed.
pub proof fn an_entered_amount_keeps_its_value(field: Seq<char>, ctx: Ctx)
    ensures
        amount::parse_amount_spec(field, ctx) matches Some(p) ==> {
            let again = restyle::restyle_entered_spec(field, ctx);
            &&& face_of(again, ctx) matches Some((u, commodity)) && commodity == p.commodity
                && u.equals(p.value)
            &&& (exact_cost(field, ctx) && exact_cost(again, ctx)) || factors(again, ctx)
                == factors(field, ctx) ==> {
                &&& amount::parse_amount_spec(again, ctx) matches Some(q)
                &&& q.commodity == p.commodity
                &&& q.value.equals(p.value)
                &&& q.contributes.1 == p.contributes.1
                &&& q.contributes.0.equals(p.contributes.0)
            }
        },
{
    if amount::parse_amount_spec(field, ctx) is Some {
        let again = restyle::restyle_entered_spec(field, ctx);
        let (num, name, rest) = lex::split_amount_spec(text::words_spec(field));
        let (num2, name2, t) = lex::split_amount_spec(text::words_spec(again));
        lemma_entered_parts(field, ctx);
        steady::lemma_tail_starts(rest, ctx, Places::AtLeastDeclared);
        if rest.len() > 0 {
            lemma_price(rest, ctx);
            if rest[0][0] == '@' {
                let (value, _) = amount::parse_face_spec(num, name, ctx)->0;
                let (u, _) = amount::parse_face_spec(num2, name2, ctx)->0;
                let (a, b, _) = lex::split_amount_spec(amount::operand_spec(rest));
                let (c, d, _) = lex::split_amount_spec(amount::operand_spec(t));
                let (price, cost) = amount::parse_face_spec(a, b, ctx)->0;
                let (v, _) = amount::parse_face_spec(c, d, ctx)->0;
                lemma_products(u, v, value, price);
                lemma_totals(v, price);
            }
        }
    }
}

} // verus!
