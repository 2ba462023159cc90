//! Why restyling leaves alone what it has written.

use vstd::prelude::*;
use crate::amount::{self, Ctx};
use crate::decimal::{self, Num};
use crate::fmt::{self, Classify, Options};
use crate::fmt::blank;
use crate::fmt::explicit::Line;
use crate::fmt::laws;
use crate::fmt::posting::{self, Post};
use crate::fmt::reread;
use crate::fmt::scanned;
use crate::fmt::settle;
use crate::lex;
use crate::numerals;
use crate::restyle::{self, Places};
use crate::style::{Side, Style};
use crate::text::{self, CharClass};
use crate::tokens;

verus! {

/// Whether amounts of a commodity in a style can be told apart again: its
/// numbers are read back, and its symbol is not taken for an operator or for a
/// part of the number it stands beside.
pub open spec fn legible(name: Seq<char>, style: Style) -> bool {
    &&& tokens::is_word(name)
    &&& numerals::readable(style)
    &&& match (style.symbol_side, style.symbol_space) {
        (Side::Right, true) => !lex::is_rest_start_spec(name) && !lex::is_digit_group_spec(name),
        (Side::Left, true) => !lex::is_rest_start_spec(name) && !lex::is_number_like_spec(name),
        (Side::Right, false) => !text::any_spec(name, CharClass::NumChar),
        (Side::Left, false) => {
            &&& !text::any_spec(name, CharClass::NumChar)
            &&& !lex::is_rest_start_spec(name)
            &&& !CharClass::Sign.has(name[0])
            &&& !CharClass::Sign.has(name.last())
        },
    }
}

// ---- tokens ----

/// Whether no token begins a cost or an assertion.
pub open spec fn loose(toks: Seq<Seq<char>>) -> bool {
    forall|i: int| 0 <= i < toks.len() ==> !lex::is_rest_start_spec(#[trigger] toks[i])
}

/// Whether tokens are none, or begin with a cost or an assertion.
pub open spec fn starts_rest(toks: Seq<Seq<char>>) -> bool {
    toks.len() == 0 || lex::is_rest_start_spec(toks[0])
}

pub proof fn lemma_rest_at_is(a: Seq<Seq<char>>, r: Seq<Seq<char>>)
    requires
        loose(a),
        starts_rest(r),
    ensures
        lex::rest_at_spec(a + r) == a.len(),
    decreases a.len(),
{
    if a.len() == 0 {
        assert(a + r =~= r);
    } else {
        let t = a.skip(1);
        assert forall|i: int| 0 <= i < t.len() implies !lex::is_rest_start_spec(
            #[trigger] t[i],
        ) by {
            assert(t[i] == a[i + 1]);
        }
        lemma_rest_at_is(t, r);
        assert((a + r).skip(1) =~= t + r);
        assert((a + r)[0] == a[0]);
    }
}

/// The tokens before the first cost or assertion, and those from it on.
pub proof fn lemma_rest_at_cut(toks: Seq<Seq<char>>)
    ensures
        ({
            let k = lex::rest_at_spec(toks);
            &&& 0 <= k <= toks.len()
            &&& loose(toks.take(k))
            &&& starts_rest(toks.skip(k))
            &&& toks == toks.take(k) + toks.skip(k)
        }),
    decreases toks.len(),
{
    let k = lex::rest_at_spec(toks);
    restyle::lemma_rest_at(toks);
    if toks.len() > 0 && !lex::is_rest_start_spec(toks[0]) {
        let t = toks.skip(1);
        lemma_rest_at_cut(t);
        let front = toks.take(k);
        assert forall|i: int| 0 <= i < front.len() implies !lex::is_rest_start_spec(
            #[trigger] front[i],
        ) by {
            if i > 0 {
                assert(front[i] == t.take(k - 1)[i - 1]);
            }
        }
        assert(toks.skip(k) =~= t.skip(k - 1));
    }
    assert(toks =~= toks.take(k) + toks.skip(k));
}

/// What precedes a cost or an assertion falls apart by itself.
pub proof fn lemma_split_at(a: Seq<Seq<char>>, r: Seq<Seq<char>>)
    requires
        loose(a),
        starts_rest(r),
    ensures
        ({
            let (num, commodity, more) = lex::split_amount_spec(a);
            &&& lex::split_amount_spec(a + r) == (num, commodity, more + r)
            &&& loose(more)
        }),
{
    let none = Seq::<Seq<char>>::empty();
    lemma_rest_at_is(a, r);
    lemma_rest_at_is(a, none);
    assert(a + none =~= a);
    assert((a + r).take(a.len() as int) =~= a);
    assert((a + r).skip(a.len() as int) =~= r);
    assert(a.take(a.len() as int) =~= a);
    assert(a.skip(a.len() as int) =~= none);
    let (num, commodity, more) = lex::split_amount_spec(a);
    if a.len() > 0 && lex::is_number_like_spec(a[0]) {
        let n = 1 + lex::groups_spec(a.skip(1));
        settle::lemma_groups(a.skip(1));
        if n < a.len() {
            assert(more =~= a.skip(n + 1));
            assert(a.skip(n + 1) + r =~= more + r);
        } else {
            assert(more =~= none);
            assert(more + r =~= r);
        }
    } else {
        assert(more + r =~= r);
    }
}

/// Loose tokens, and that they are all.
pub proof fn lemma_loose_all(toks: Seq<Seq<char>>)
    requires
        lex::rest_at_spec(toks) == toks.len(),
    ensures
        loose(toks),
{
    lemma_rest_at_cut(toks);
    assert(toks.take(toks.len() as int) =~= toks);
}

/// More tokens behind those that begin with a digit, up to one that does not.
proof fn lemma_groups_front(a: Seq<Seq<char>>, b: Seq<Seq<char>>)
    requires
        lex::groups_spec(a) < a.len(),
    ensures
        lex::groups_spec(a + b) == lex::groups_spec(a),
    decreases a.len(),
{
    assert((a + b)[0] == a[0]);
    if lex::is_digit_group_spec(a[0]) {
        assert((a + b).skip(1) =~= a.skip(1) + b);
        lemma_groups_front(a.skip(1), b);
    }
}

/// A number and its commodity stay apart from whatever follows.
proof fn lemma_split_front(a: Seq<Seq<char>>, t: Seq<Seq<char>>)
    requires
        loose(a),
        lex::split_amount_spec(a).1.len() > 0,
        lex::split_amount_spec(a).2.len() == 0,
    ensures
        lex::split_amount_spec(a + t) == (
            lex::split_amount_spec(a).0,
            lex::split_amount_spec(a).1,
            t,
        ),
{
    let none = Seq::<Seq<char>>::empty();
    lemma_rest_at_is(a, none);
    assert(a + none =~= a);
    assert(a.take(a.len() as int) =~= a);
    assert(a.skip(a.len() as int) =~= none);
    let k = lex::rest_at_spec(t);
    lemma_rest_at_cut(t);
    let front = a + t.take(k);
    assert forall|i: int| 0 <= i < front.len() implies !lex::is_rest_start_spec(
        #[trigger] front[i],
    ) by {
        if i < a.len() {
            assert(front[i] == a[i]);
        } else {
            assert(front[i] == t.take(k)[i - a.len()]);
        }
    }
    lemma_rest_at_is(front, t.skip(k));
    assert(a + t =~= front + t.skip(k));
    assert((a + t).take(front.len() as int) =~= front);
    assert((a + t).skip(front.len() as int) =~= t.skip(k));
    let n = 1 + lex::groups_spec(a.skip(1));
    settle::lemma_groups(a.skip(1));
    assert(n < a.len());
    assert(a.skip(n + 1) + none =~= none);
    assert(n + 1 == a.len());
    assert(front.skip(1) =~= a.skip(1) + t.take(k));
    lemma_groups_front(a.skip(1), t.take(k));
    assert(front[0] == a[0]);
    assert(front.take(n) =~= a.take(n));
    assert(front[n] == a[n]);
    assert(front.skip(n + 1) + t.skip(k) =~= t);
}

// ---- faces ----

/// The number and the symbol of an amount that is written as one token are
/// taken apart again.
proof fn lemma_detach_right(t: Seq<char>, name: Seq<char>)
    requires
        t.len() > 0,
        text::is_digit(t[0]) || t[0] == '-' && t.len() > 1 && text::is_digit(t[1]),
        text::is_digit(t.last()),
        name.len() > 0,
        !text::any_spec(name, CharClass::NumChar),
    ensures
        amount::detach_spec(t + name) == (t, name),
{
    let tok = t + name;
    let n: int = if t[0] == '-' {
        1
    } else {
        0
    };
    text::lemma_run_is(tok, CharClass::Sign, true, n);
    let body = tok.skip(n);
    assert(CharClass::NumChar.has(body[0]));
    text::lemma_run_is(body, CharClass::NumChar, false, 0);
    let m = name.len() as int;
    assert forall|i: int| body.len() - m <= i < body.len() implies CharClass::NumChar.has(
        #[trigger] body[i],
    ) == false by {
        assert(body[i] == name[i - (body.len() - m)]);
    }
    assert(body[body.len() - m - 1] == t.last());
    text::lemma_run_back_is(body, CharClass::NumChar, false, m);
    assert(tok.take(n) + body.take(body.len() - m) =~= t);
    assert(body.skip(body.len() - m) =~= name);
}

proof fn lemma_detach_left(t: Seq<char>, name: Seq<char>)
    requires
        t.len() > 0,
        text::is_digit(t[0]) || t[0] == '-' && t.len() > 1 && text::is_digit(t[1]),
        name.len() > 0,
        !text::any_spec(name, CharClass::NumChar),
        !CharClass::Sign.has(name[0]),
        !CharClass::Sign.has(name.last()),
    ensures
        amount::detach_spec(name + t) == (t, name),
{
    let tok = name + t;
    text::lemma_run_is(tok, CharClass::Sign, true, 0);
    let body = tok.skip(0);
    assert(body =~= tok);
    let m = name.len() as int;
    let lead = if t[0] == '-' {
        m + 1
    } else {
        m
    };
    assert forall|i: int| 0 <= i < lead implies CharClass::NumChar.has(#[trigger] body[i])
        == false by {
        if i < m {
            assert(body[i] == name[i]);
        }
    }
    assert(body[lead] == t[lead - m]);
    text::lemma_run_is(body, CharClass::NumChar, false, lead);
    let head = body.take(lead);
    assert(head[m - 1] == name.last());
    text::lemma_run_back_is(head, CharClass::Sign, true, lead - m);
    assert(text::trim_end_spec(head, CharClass::Sign) =~= name);
    assert(tok.take(0) + body.skip(m) =~= t);
}

/// A number in a style with marks reads as one.
pub proof fn lemma_numeral(value: Num, style: Style, places: nat)
    requires
        numerals::punctuated(style),
    ensures
        numeral(restyle::render_number_spec(value, style, places)),
{
    let t = restyle::render_number_spec(value, style, places);
    numerals::lemma_number_chars(value, style, places);
    assert forall|i: int| 0 <= i < t.len() implies !text::is_white(#[trigger] t[i]) by {
        assert(t[i] == '-' || CharClass::NumChar.has(t[i]));
    }
    assert(CharClass::Digit.has(t[t.len() - 1]));
}

/// Whether a text reads as a number of digits and marks, with a minus or none.
pub open spec fn numeral(t: Seq<char>) -> bool {
    &&& tokens::is_word(t)
    &&& lex::is_number_like_spec(t)
    &&& text::is_digit(t[0]) || t[0] == '-' && t.len() > 1 && text::is_digit(t[1])
    &&& text::is_digit(t.last())
}

/// A number and its symbol beside it fall apart again.
pub proof fn lemma_styled_apart(t: Seq<char>, name: Seq<char>, style: Style)
    requires
        legible(name, style),
        numeral(t),
    ensures
        ({
            let s = restyle::attach_spec(t, name, style.symbol_side, style.symbol_space);
            let (num, commodity, more) = lex::split_amount_spec(text::words_spec(s));
            &&& text::words_spec(s).len() > 0
            &&& loose(text::words_spec(s))
            &&& more.len() == 0
            &&& (num, commodity) == (if style.symbol_side == Side::Right && style.symbol_space {
                (t, name)
            } else {
                (s, Seq::<char>::empty())
            })
            &&& amount::face_parts_spec(num, commodity) == Some((t, name))
        }),
{
    reveal_strlit(" ");
    reveal_strlit("");
    let s = restyle::attach_spec(t, name, style.symbol_side, style.symbol_space);
    let none = Seq::<Seq<char>>::empty();
    assert(!lex::is_rest_start_spec(t));
    if style.symbol_space {
        let toks = match style.symbol_side {
            Side::Left => seq![name, t],
            Side::Right => seq![t, name],
        };
        assert(tokens::is_word(toks[0]) && tokens::is_word(toks[1]));
        assert(s =~= text::join_spec(toks, " "@)) by {
            assert(toks.drop_last() =~= seq![toks[0]]);
            assert(toks.drop_last().drop_last() =~= none);
            assert(text::join_spec(toks.drop_last(), " "@) =~= toks[0]);
        }
        tokens::lemma_words_join(toks);
        lemma_rest_at_is(toks, none);
        assert(toks + none =~= toks);
        assert(toks.take(2) =~= toks);
        assert(toks.skip(2) =~= none);
        match style.symbol_side {
            Side::Left => {
                assert(lex::split_amount_spec(toks) == (s, Seq::<char>::empty(), none));
            },
            Side::Right => {
                assert(toks.skip(1)[0] == name);
                assert(lex::groups_spec(toks.skip(1)) == 0);
                assert(toks.take(1) =~= seq![t]);
                assert(text::join_spec(seq![t], " "@) =~= t);
                assert(toks.skip(2) + none =~= none);
                assert(lex::split_amount_spec(toks) == (t, name, none));
            },
        }
    } else {
        assert forall|i: int| 0 <= i < s.len() implies !text::is_white(#[trigger] s[i]) by {
            match style.symbol_side {
                Side::Left => {
                    if i < name.len() {
                        assert(s[i] == name[i]);
                    } else {
                        assert(s[i] == t[i - name.len()]);
                    }
                },
                Side::Right => {
                    if i < t.len() {
                        assert(s[i] == t[i]);
                    } else {
                        assert(s[i] == name[i - t.len()]);
                    }
                },
            }
        }
        tokens::lemma_words_one(s);
        let toks = seq![s];
        assert(!lex::is_rest_start_spec(s));
        lemma_rest_at_is(toks, none);
        assert(toks + none =~= toks);
        assert(toks.take(1) =~= toks);
        assert(toks.skip(1) =~= none);
        assert(lex::groups_spec(none) == 0);
        assert(text::join_spec(toks, " "@) =~= s);
        assert(lex::split_amount_spec(toks) == (s, Seq::<char>::empty(), none));
        match style.symbol_side {
            Side::Left => {
                assert(s =~= name + t);
                lemma_detach_left(t, name);
            },
            Side::Right => {
                assert(s =~= t + name);
                lemma_detach_right(t, name);
            },
        }
    }
}

/// A legible style is applied: whatever amount of the commodity is written in
/// it, and whatever places it is filled out to, reads as what it is.
pub proof fn a_legible_style_is_applied(value: Num, name: Seq<char>, ctx: Ctx, places: Places)
    requires
        settle::clean(ctx),
        ctx.styles.dom().contains(name),
        legible(name, ctx.styles[name]),
        !name.contains(';'),
        value.representable(),
    ensures
        ({
            let st = ctx.styles[name].under(ctx.decimal_mark);
            restyle::reads_back_spec(value, name, st, places.places_of(value, st), ctx)
        }),
{
    let st = ctx.styles[name].under(ctx.decimal_mark);
    let n = places.places_of(value, st);
    numerals::lemma_under(ctx.styles[name], ctx.decimal_mark);
    numerals::lemma_rescaled(value, places, st);
    numerals::a_written_number_reads_back(value, st, n);
    lemma_legible_at(value, name, st, n, ctx);
}

/// An amount in a legible style reads as what it is where its number does.
pub proof fn lemma_legible_at(value: Num, name: Seq<char>, st: Style, n: nat, ctx: Ctx)
    requires
        settle::clean(ctx),
        legible(name, st),
        numerals::punctuated(st),
        ctx.mark_for(name) == Some(st.decimal_mark),
        !name.contains(';'),
        amount::parse_number_spec(
            restyle::render_number_spec(value, st, n),
            Some(st.decimal_mark),
        ) == Some(value.rescaled(n)),
    ensures
        restyle::reads_back_spec(value, name, st, n, ctx),
{
    let t = restyle::render_number_spec(value, st, n);
    let s = restyle::render_styled_spec(value, name, st, n);
    lemma_numeral(value, st, n);
    numerals::lemma_number_chars(value, st, n);
    lemma_styled_apart(t, name, st);
    let toks = text::words_spec(s);
    let none = Seq::<Seq<char>>::empty();
    lemma_rest_at_is(toks, none);
    assert(toks + none =~= toks);
    assert forall|i: int| 0 <= i < t.len() implies t[i] != ';' by {
        assert(t[i] == '-' || CharClass::NumChar.has(t[i]));
    }
    lemma_begins_no_comment(t, name, st);
}

/// An amount holds no `;` where neither its number nor its symbol does.
proof fn lemma_begins_no_comment(t: Seq<char>, name: Seq<char>, st: Style)
    requires
        numeral(t),
        forall|i: int| 0 <= i < t.len() ==> t[i] != ';',
        !name.contains(';'),
    ensures
        !text::any_spec(
            restyle::attach_spec(t, name, st.symbol_side, st.symbol_space),
            CharClass::Is(';'),
        ),
{
    reveal_strlit(" ");
    reveal_strlit("");
    let s = restyle::attach_spec(t, name, st.symbol_side, st.symbol_space);
    let space = if st.symbol_space {
        " "@
    } else {
        ""@
    };
    assert forall|i: int| 0 <= i < s.len() implies s[i] != ';' by {
        if name.len() == 0 {
        } else if st.symbol_side == Side::Left {
            if i < name.len() {
                assert(name.contains(name[i]));
            } else if i >= name.len() + space.len() {
                assert(s[i] == t[i - name.len() - space.len()]);
            }
        } else if i < t.len() {
            assert(s[i] == t[i]);
        } else if i >= t.len() + space.len() {
            assert(s[i] == name[i - t.len() - space.len()]);
            assert(name.contains(name[i - t.len() - space.len()]));
        }
    }
}

// ---- faces that are written ----

/// Whatever a face reads as fits.
pub proof fn lemma_face_fits(num: Seq<char>, commodity: Seq<char>, ctx: Ctx)
    ensures
        amount::parse_face_spec(num, commodity, ctx) matches Some((value, name))
            ==> value.representable(),
{
}

/// An amount that reads as what it is, in its declared style, is restyled to
/// itself.
pub proof fn lemma_written_again(
    value: Num,
    name: Seq<char>,
    n: nat,
    ctx: Ctx,
    places: Places,
)
    requires
        name.len() > 0,
        ctx.styles.dom().contains(name),
        ({
            let st = ctx.styles[name].under(ctx.decimal_mark);
            let u = value.rescaled(n);
            &&& restyle::reads_back_spec(value, name, st, n, ctx)
            &&& u.rescaled(places.places_of(u, st)) == u
            &&& (u.mantissa < 0) == (value.mantissa < 0)
        }),
    ensures
        ({
            let st = ctx.styles[name].under(ctx.decimal_mark);
            let u = value.rescaled(n);
            let f = restyle::fields_spec(value, name, st, n);
            &&& restyle::restylable_spec(f.0, f.1, ctx, places) == Some((u, name, st))
            &&& restyle::fields_spec(u, name, st, places.places_of(u, st)) == f
            &&& restyle::render_styled_spec(u, name, st, places.places_of(u, st))
                == restyle::render_styled_spec(value, name, st, n)
        }),
{
    let st = ctx.styles[name].under(ctx.decimal_mark);
    let u = value.rescaled(n);
    let m = places.places_of(u, st);
    assert(restyle::render_number_spec(u, st, m) == restyle::render_number_spec(value, st, n));
}

/// A face that restyles is restyled to itself once it is, and reads as the
/// value and the commodity it was.
pub proof fn lemma_restyled_again(num: Seq<char>, commodity: Seq<char>, ctx: Ctx, places: Places)
    ensures
        restyle::restylable_spec(num, commodity, ctx, places) matches Some((value, name, st)) ==> {
            let n = places.places_of(value, st);
            let u = value.rescaled(n);
            let f = restyle::fields_spec(value, name, st, n);
            let s = restyle::render_styled_spec(value, name, st, n);
            let toks = text::words_spec(s);
            &&& restyle::restyle_fields_spec(num, commodity, ctx, places) == Some(f)
            &&& restyle::restyle_fields_spec(f.0, f.1, ctx, places) == Some(f)
            &&& restyle::restyle_pair_spec(f.0, f.1, ctx, places) == Some(s)
            &&& loose(toks)
            &&& lex::split_amount_spec(toks) == (f.0, f.1, Seq::<Seq<char>>::empty())
            &&& reread::amount_words(f.0, f.1, Seq::empty()) == toks
            &&& toks.len() > 0
            &&& !text::any_spec(s, CharClass::Is(';'))
            &&& amount::parse_face_spec(num, commodity, ctx) == Some((value, name))
            &&& amount::parse_face_spec(f.0, f.1, ctx) == Some((u, name))
            &&& value.representable()
            &&& u.representable()
            &&& u.equals(value)
            &&& (u.mantissa < 0) == (value.mantissa < 0)
            &&& places == Places::AsWritten ==> u == value
        },
{
    if let Some((value, name, st)) = restyle::restylable_spec(num, commodity, ctx, places) {
        let n = places.places_of(value, st);
        lemma_face_fits(num, commodity, ctx);
        numerals::lemma_rescaled(value, places, st);
        assert(value.mantissa / 1 == value.mantissa);
        assert(decimal::pow10(0) == 1);
        lemma_written_again(value, name, n, ctx, places);
        lemma_reads_back(value, name, st, n, ctx);
    }
}

/// How an amount that reads as what it is falls apart.
pub proof fn lemma_reads_back(value: Num, name: Seq<char>, st: Style, n: nat, ctx: Ctx)
    requires
        restyle::reads_back_spec(value, name, st, n, ctx),
    ensures
        ({
            let f = restyle::fields_spec(value, name, st, n);
            let s = restyle::render_styled_spec(value, name, st, n);
            let toks = text::words_spec(s);
            &&& loose(toks)
            &&& toks.len() > 0
            &&& lex::split_amount_spec(toks) == (f.0, f.1, Seq::<Seq<char>>::empty())
            &&& reread::amount_words(f.0, f.1, Seq::empty()) == toks
        }),
{
    let f = restyle::fields_spec(value, name, st, n);
    let s = restyle::render_styled_spec(value, name, st, n);
    let toks = text::words_spec(s);
    lemma_loose_all(toks);
    tokens::lemma_words_are_words(s);
    settle::lemma_split_parts(toks);
    assert(lex::split_amount_spec(toks).2 =~= Seq::<Seq<char>>::empty());
    if toks.len() == 0 {
        assert(text::words_spec(f.0).len() == 0);
        assert(f.1.len() == 0);
    }
}

/// Restyling never changes what an amount says: whatever style it is declared
/// with, and whatever places it is filled out to, it reads as the value and the
/// commodity it was.
pub proof fn restyling_keeps_the_value(
    num: Seq<char>,
    commodity: Seq<char>,
    ctx: Ctx,
    places: Places,
)
    ensures
        restyle::restyle_pair_spec(num, commodity, ctx, places) matches Some(s) ==> {
            let (num2, commodity2, more) = lex::split_amount_spec(text::words_spec(s));
            &&& more.len() == 0
            &&& amount::parse_face_spec(num, commodity, ctx) matches Some((value, name))
            &&& amount::parse_face_spec(num2, commodity2, ctx) matches Some((again, same))
            &&& same == name
            &&& again.equals(value)
        },
{
    lemma_restyled_again(num, commodity, ctx, places);
}

// ---- tails ----

/// Loose tokens stay in front of a tail.
proof fn lemma_tail_loose(a: Seq<Seq<char>>, r: Seq<Seq<char>>, ctx: Ctx, places: Places)
    requires
        loose(a),
    ensures
        restyle::restyle_tail_spec(a + r, ctx, places) == a + restyle::restyle_tail_spec(
            r,
            ctx,
            places,
        ),
    decreases a.len(),
{
    let tr = restyle::restyle_tail_spec(r, ctx, places);
    if a.len() == 0 {
        assert(a + r =~= r);
        assert(a + tr =~= tr);
    } else {
        let t = a.skip(1);
        assert forall|i: int| 0 <= i < t.len() implies !lex::is_rest_start_spec(
            #[trigger] t[i],
        ) by {
            assert(t[i] == a[i + 1]);
        }
        lemma_tail_loose(t, r, ctx, places);
        assert((a + r).skip(1) =~= t + r);
        assert((a + r)[0] == a[0]);
        assert(seq![a[0]] + (t + tr) =~= a + tr);
    }
}

/// An operator without what is attached to it.
pub proof fn lemma_op(tok: Seq<char>)
    requires
        lex::is_rest_start_spec(tok),
    ensures
        ({
            let op = tok.take(amount::op_len_spec(tok));
            &&& 0 < amount::op_len_spec(tok) <= tok.len()
            &&& op[0] == tok[0]
            &&& lex::is_rest_start_spec(op)
            &&& amount::op_len_spec(op) == op.len()
            &&& op.take(amount::op_len_spec(op)) == op
            &&& amount::attached_spec(op) == Seq::<Seq<char>>::empty()
        }),
{
    let n = amount::op_len_spec(tok);
    let op = tok.take(n);
    assert(op[0] == tok[0]);
    if n > 1 {
        assert(op[1] == tok[1]);
    }
    if n > 2 {
        assert(op[2] == tok[2]);
    }
    assert(op.take(op.len() as int) =~= op);
}

/// A tail begins with a cost or an assertion where it did, and is empty where
/// it was.
pub proof fn lemma_tail_starts(r: Seq<Seq<char>>, ctx: Ctx, places: Places)
    ensures
        starts_rest(restyle::restyle_tail_spec(r, ctx, places)) == starts_rest(r),
        (restyle::restyle_tail_spec(r, ctx, places).len() == 0) == (r.len() == 0),
{
    if r.len() > 0 {
        let t = restyle::restyle_tail_spec(r, ctx, places);
        if lex::is_rest_start_spec(r[0]) {
            lemma_op(r[0]);
            assert(t[0] == r[0] || t[0] == r[0].take(amount::op_len_spec(r[0])));
        } else {
            assert(t[0] == r[0]);
        }
    }
}

/// One operator and its amount, as they are written again.
proof fn lemma_group_again(
    op: Seq<char>,
    words: Seq<Seq<char>>,
    tm: Seq<Seq<char>>,
    ctx: Ctx,
    places: Places,
)
    requires
        lex::is_rest_start_spec(op),
        loose(words),
        starts_rest(tm),
    ensures
        ({
            let all = seq![op] + words + tm;
            restyle::restyle_tail_spec(all, ctx, places) == (match restyle::restyle_text_spec(
                text::join_spec(amount::attached_spec(op) + words, " "@),
                ctx,
                places,
            ) {
                Some(s) => seq![op.take(amount::op_len_spec(op))] + text::words_spec(s),
                None => seq![op] + words,
            }) + restyle::restyle_tail_spec(tm, ctx, places)
        }),
{
    let all = seq![op] + words + tm;
    let later = all.skip(1);
    assert(later =~= words + tm);
    lemma_rest_at_is(words, tm);
    let k = words.len() as int;
    assert(later.take(k) =~= words);
    assert(later.skip(k) =~= tm);
    assert(all[0] == op);
    assert(amount::operand_spec(all) == amount::attached_spec(op) + words);
}

/// A restyled tail is restyled to itself.
pub proof fn lemma_tail_again(rest: Seq<Seq<char>>, ctx: Ctx, places: Places)
    ensures
        restyle::restyle_tail_spec(restyle::restyle_tail_spec(rest, ctx, places), ctx, places)
            == restyle::restyle_tail_spec(rest, ctx, places),
    decreases rest.len(),
{
    let t = restyle::restyle_tail_spec(rest, ctx, places);
    if rest.len() == 0 {
    } else if !lex::is_rest_start_spec(rest[0]) {
        let more = rest.skip(1);
        lemma_tail_again(more, ctx, places);
        lemma_tail_loose(
            seq![rest[0]],
            restyle::restyle_tail_spec(more, ctx, places),
            ctx,
            places,
        );
    } else {
        let later = rest.skip(1);
        let k = lex::rest_at_spec(later);
        lemma_rest_at_cut(later);
        let more = later.skip(k);
        let words = later.take(k);
        lemma_tail_again(more, ctx, places);
        lemma_tail_starts(more, ctx, places);
        let tm = restyle::restyle_tail_spec(more, ctx, places);
        let group = text::join_spec(amount::operand_spec(rest), " "@);
        match restyle::restyle_text_spec(group, ctx, places) {
            None => {
                assert(t == seq![rest[0]] + words + tm);
                lemma_group_again(rest[0], words, tm, ctx, places);
            },
            Some(s) => {
                let op = rest[0].take(amount::op_len_spec(rest[0]));
                lemma_op(rest[0]);
                assert(t == seq![op] + text::words_spec(s) + tm);
                lemma_operand_again(group, ctx, places);
                lemma_group_again(op, text::words_spec(s), tm, ctx, places);
                assert(amount::attached_spec(op) + text::words_spec(s) =~= text::words_spec(s));
            },
        }
    }
}

/// A restyled amount behind an operator is restyled to itself, and reads as
/// what it was.
pub proof fn lemma_operand_again(group: Seq<char>, ctx: Ctx, places: Places)
    ensures
        restyle::restyle_text_spec(group, ctx, places) matches Some(s) ==> {
            let (num, commodity, _) = lex::split_amount_spec(text::words_spec(group));
            let (num2, commodity2, more) = lex::split_amount_spec(text::words_spec(s));
            &&& loose(text::words_spec(s))
            &&& !text::any_spec(s, CharClass::Is(';'))
            &&& restyle::restyle_text_spec(
                text::join_spec(text::words_spec(s), " "@),
                ctx,
                places,
            ) == Some(s)
            &&& more.len() == 0
            &&& amount::parse_face_spec(num, commodity, ctx) matches Some((value, name))
            &&& amount::parse_face_spec(num2, commodity2, ctx) matches Some((u, same))
            &&& same == name
            &&& value.representable()
            &&& u.representable()
            &&& u.equals(value)
            &&& (u.mantissa < 0) == (value.mantissa < 0)
            &&& places == Places::AsWritten ==> u == value
        },
{
    let (num, commodity, tail) = lex::split_amount_spec(text::words_spec(group));
    lemma_restyled_again(num, commodity, ctx, places);
    if let Some(s) = restyle::restyle_text_spec(group, ctx, places) {
        tokens::lemma_words_rejoined(s);
    }
}

// ---- postings ----

/// A restyled face with its tail behind it falls apart into just these.
pub proof fn lemma_face_apart(
    num: Seq<char>,
    commodity: Seq<char>,
    t: Seq<Seq<char>>,
    ctx: Ctx,
    places: Places,
)
    ensures
        restyle::restyle_fields_spec(num, commodity, ctx, places) matches Some((n2, c2)) ==> (c2.len()
            > 0 || starts_rest(t)) ==> lex::split_amount_spec(reread::amount_words(n2, c2, t)) == (
            n2,
            c2,
            t,
        ),
{
    lemma_restyled_again(num, commodity, ctx, places);
    if let Some((n2, c2)) = restyle::restyle_fields_spec(num, commodity, ctx, places) {
        let toks = reread::amount_words(n2, c2, Seq::empty());
        assert(reread::amount_words(n2, c2, t) =~= toks + t);
        if starts_rest(t) {
            lemma_split_at(toks, t);
            assert(Seq::<Seq<char>>::empty() + t =~= t);
        } else if c2.len() > 0 {
            lemma_split_front(toks, t);
        }
    }
}

/// What a face that does not restyle reads as.
pub proof fn lemma_face_stays(
    num: Seq<char>,
    commodity: Seq<char>,
    rest: Seq<Seq<char>>,
    ctx: Ctx,
    places: Places,
)
    requires
        lex::split_amount_spec(reread::amount_words(num, commodity, rest)) == (
            num,
            commodity,
            rest,
        ),
    ensures
        ({
            let t = restyle::restyle_tail_spec(rest, ctx, places);
            lex::split_amount_spec(reread::amount_words(num, commodity, t)) == (num, commodity, t)
        }),
{
    let toks = reread::amount_words(num, commodity, rest);
    let k = lex::rest_at_spec(toks);
    lemma_rest_at_cut(toks);
    let a = toks.take(k);
    let r = toks.skip(k);
    lemma_split_at(a, r);
    let more = lex::split_amount_spec(a).2;
    assert(rest == more + r);
    lemma_tail_loose(more, r, ctx, places);
    lemma_tail_starts(r, ctx, places);
    let tr = restyle::restyle_tail_spec(r, ctx, places);
    let t = restyle::restyle_tail_spec(rest, ctx, places);
    assert(t == more + tr);
    lemma_split_at(a, tr);
    let head = reread::amount_words(num, commodity, Seq::empty());
    assert(toks =~= head + rest);
    assert(a =~= head + more) by {
        assert(head.len() + more.len() == a.len());
        assert forall|i: int| 0 <= i < a.len() implies a[i] == (head + more)[i] by {
            assert(a[i] == toks[i]);
            if i >= head.len() {
                assert(toks[i] == rest[i - head.len()]);
            }
        }
    }
    assert(reread::amount_words(num, commodity, t) =~= a + tr);
}

/// Restyling a posting twice changes nothing more: a restyled posting is
/// restyled to itself. The account and the comment stay, and so does a posting
/// without an amount.
pub proof fn restyling_a_posting_is_idempotent(p: Post, ctx: Ctx, places: Places)
    ensures
        ({
            let q = posting::restyle_post_spec(p, ctx, places);
            &&& posting::restyle_post_spec(q, ctx, places) == q
            &&& match p {
                Post::Amount { account, comment, .. } => q matches Post::Amount {
                    account: account2,
                    comment: comment2,
                    ..
                } && account2 == account && comment2 == comment,
                _ => q == p,
            }
        }),
{
    if let Post::Amount { account, num, commodity, rest, comment } = p {
        lemma_tail_again(rest, ctx, places);
        lemma_tail_starts(rest, ctx, places);
        lemma_restyled_again(num, commodity, ctx, places);
    }
}

/// A posting that reads back as what it is does so once it is restyled.
pub proof fn lemma_post_settles(p: Post, ctx: Ctx, places: Places)
    requires
        reread::reread(p) == p,
    ensures
        ({
            let q = posting::restyle_post_spec(p, ctx, places);
            &&& reread::reread(q) == q
            &&& posting::restyle_post_spec(q, ctx, places) == q
        }),
{
    restyling_a_posting_is_idempotent(p, ctx, places);
    if let Post::Amount { account, num, commodity, rest, comment } = p {
        let t = restyle::restyle_tail_spec(rest, ctx, places);
        lemma_tail_starts(rest, ctx, places);
        lemma_face_apart(num, commodity, t, ctx, places);
        lemma_face_stays(num, commodity, rest, ctx, places);
    }
}

// ---- texts ----

/// What formatting has written is left alone when it is formatted again.
pub proof fn lemma_postings_settle(ls: Seq<Seq<char>>, ctx: Ctx, opts: Options)
    requires
        !opts.explicit,
    ensures
        laws::settles(ls, ctx, opts),
{
    laws::lemma_classes(ls, ctx, opts);
    assert forall|i: int| 0 <= i < ls.len() implies (
    #[trigger] fmt::styled_spec(ls, ctx, opts)[i] matches Line::Post(ps)
        ==> posting::restyle_post_spec(
        reread::reread(ps[0]),
        fmt::marked(ctx, Classify::over(ls.take(i), ctx, opts).mark),
        opts.places_spec(),
    ) == ps[0]) by {
        let at = Classify::over(ls.take(i), ctx, opts);
        if let Line::Post(ps) = fmt::styled_spec(ls, ctx, opts)[i] {
            let here = fmt::marked(ctx, at.mark);
            settle::lemma_parsed_plain(ls[i]);
            lemma_post_settles(posting::parse_posting_spec(ls[i]), here, opts.places_spec());
        }
    }
}

/// Formatting is idempotent: a formatted text is formatted to itself, whatever
/// the styles are.
pub proof fn formatting_is_idempotent(s: Seq<char>, ctx: Ctx)
    requires
        settle::clean(ctx),
    ensures
        ({
            let opts = Options { sort: false, explicit: false };
            let out = fmt::format_spec(s, ctx, opts);
            fmt::format_spec(out, ctx, opts) == out
        }),
{
    let opts = Options { sort: false, explicit: false };
    lemma_postings_settle(blank::normalize_spec(fmt::lines_spec(s)), ctx, opts);
    laws::lemma_formatting_settles(s, ctx);
}

/// `format` is idempotent: `format(format(x)) == format(x)`, on every text.
pub proof fn format_is_idempotent(s: Seq<char>)
    ensures
        ({
            let opts = Options { sort: false, explicit: false };
            let out = fmt::format_spec(s, fmt::scan_ctx_spec(fmt::lines_spec(s)), opts);
            fmt::format_spec(out, fmt::scan_ctx_spec(fmt::lines_spec(out)), opts) == out
        }),
{
    let ctx = fmt::scan_ctx_spec(fmt::lines_spec(s));
    scanned::lemma_scanned_clean(fmt::lines_spec(s));
    scanned::formatting_keeps_the_styles(s, ctx);
    formatting_is_idempotent(s, ctx);
}

} // verus!
