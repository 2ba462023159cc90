//! What restyling makes of a posting that it has restyled.

use vstd::prelude::*;
use crate::amount::{self, Ctx};
use crate::decimal::Num;
use crate::fmt;
use crate::fmt::posting::{self, Post};
use crate::fmt::reread;
use crate::lex;
use crate::numerals;
use crate::restyle::{self, Places};
use crate::style::{self, Side, Style};
use crate::text::{self, CharClass};
use crate::tokens;

verus! {

/// Whether the numbers that a context writes hold nothing but signs, digits
/// and marks.
pub open spec fn clean(ctx: Ctx) -> bool {
    &&& ctx.decimal_mark matches Some(m) ==> CharClass::Mark.has(m)
    &&& forall|name: Seq<char>|
        ctx.styles.dom().contains(name) ==> numerals::punctuated(#[trigger] ctx.styles[name])
}

/// A character that restyling never writes.
pub open spec fn foreign(c: char) -> bool {
    c == ';' || c == '\n'
}

/// What a symbol taken off a token is made of.
proof fn lemma_detached(tok: Seq<char>)
    ensures
        amount::detach_spec(tok).1.len() <= tok.len(),
        forall|i: int|
            0 <= i < amount::detach_spec(tok).1.len() ==> tok.contains(
                #[trigger] amount::detach_spec(tok).1[i],
            ),
{
    let n = text::run_spec(tok, CharClass::Sign, true);
    text::lemma_run(tok, CharClass::Sign, true);
    let body = tok.skip(n);
    let lead = text::run_spec(body, CharClass::NumChar, false);
    let trail = text::run_back_spec(body, CharClass::NumChar, false);
    text::lemma_run(body, CharClass::NumChar, false);
    text::lemma_run_back(body, CharClass::NumChar, false);
    let symbol = amount::detach_spec(tok).1;
    if lead > 0 {
        let head = body.take(lead);
        text::lemma_run_back(head, CharClass::Sign, true);
        assert forall|i: int| 0 <= i < symbol.len() implies tok.contains(#[trigger] symbol[i]) by {
            assert(symbol[i] == tok[n + i]);
        }
    } else if trail > 0 {
        assert forall|i: int| 0 <= i < symbol.len() implies tok.contains(#[trigger] symbol[i]) by {
            assert(symbol[i] == tok[n + body.len() - trail + i]);
        }
    }
}

/// A commodity that is read from a face is a word of it.
pub proof fn lemma_face_name(num: Seq<char>, commodity: Seq<char>, ctx: Ctx)
    requires
        commodity.len() > 0 ==> tokens::is_word(commodity),
    ensures
        amount::parse_face_spec(num, commodity, ctx) matches Some((value, name)) ==> {
            &&& value.representable()
            &&& name.len() > 0 ==> tokens::is_word(name)
            &&& forall|i: int|
                0 <= i < name.len() ==> num.contains(#[trigger] name[i]) || commodity.contains(
                    name[i],
                )
        },
{
    if let Some((value, name)) = amount::parse_face_spec(num, commodity, ctx) {
        let w = text::words_spec(num);
        tokens::lemma_words_are_words(num);
        if commodity.len() == 0 {
            assert(w.len() > 0);
            assert(tokens::is_word(w[0]));
            if w.len() == 1 {
                lemma_detached(w[0]);
                assert forall|i: int| 0 <= i < name.len() implies num.contains(#[trigger] name[i])
                    && !text::is_white(name[i]) by {
                    let j = choose|j: int| 0 <= j < w[0].len() && w[0][j] == name[i];
                    assert(num.contains(w[0][j]));
                    assert(!text::is_white(w[0][j]));
                }
            } else {
                assert(tokens::is_word(w[1]));
                assert forall|i: int| 0 <= i < name.len() implies num.contains(
                    #[trigger] name[i],
                ) by {
                    if lex::is_number_like_spec(w[1]) {
                        assert(num.contains(w[0][i]));
                    } else {
                        assert(num.contains(w[1][i]));
                    }
                }
            }
        } else {
            assert forall|i: int| 0 <= i < name.len() implies commodity.contains(
                #[trigger] name[i],
            ) by {}
        }
    }
}

/// What an amount in a style is like: it holds no foreign character, and
/// neither starts nor ends in white space.
proof fn lemma_styled_chars(value: Num, name: Seq<char>, style: Style, places: nat)
    requires
        numerals::punctuated(style),
        tokens::is_word(name),
    ensures
        ({
            let t = restyle::render_styled_spec(value, name, style, places);
            &&& t.len() > 0
            &&& !text::is_white(t[0])
            &&& !text::is_white(t.last())
            &&& forall|c: char| foreign(c) && !name.contains(c) ==> !#[trigger] t.contains(c)
        }),
{
    reveal_strlit(" ");
    reveal_strlit("");
    numerals::lemma_number_chars(value, style, places);
    let n = restyle::render_number_spec(value, style, places);
    let t = restyle::render_styled_spec(value, name, style, places);
    let space = if style.symbol_space {
        " "@
    } else {
        ""@
    };
    let a = match style.symbol_side {
        Side::Left => name,
        Side::Right => n,
    };
    let b = match style.symbol_side {
        Side::Left => n,
        Side::Right => name,
    };
    assert(t == a + space + b);
    assert(t[0] == a[0]);
    assert(t.last() == b.last());
    assert(!text::is_white(name[0]) && !text::is_white(name[name.len() - 1]));
    assert forall|c: char| foreign(c) && !name.contains(c) implies !#[trigger] t.contains(c) by {
        if t.contains(c) {
            let i = choose|i: int| 0 <= i < t.len() && t[i] == c;
            if i < a.len() {
                assert(a[i] == c);
                assert(a.contains(c));
            } else if i < a.len() + space.len() {
                assert(t[i] == ' ');
            } else {
                assert(b[i - a.len() - space.len()] == c);
                assert(b.contains(c));
            }
            assert(n.contains(c));
            let k = choose|k: int| 0 <= k < n.len() && n[k] == c;
            assert(n[k] == '-' || CharClass::NumChar.has(n[k]));
        }
    }
}

/// A number field alone, in a style, is like that too.
proof fn lemma_number_plain(value: Num, style: Style, places: nat)
    requires
        numerals::punctuated(style),
    ensures
        ({
            let t = restyle::render_number_spec(value, style, places);
            &&& tokens::is_word(t)
            &&& forall|c: char| foreign(c) ==> !#[trigger] t.contains(c)
        }),
{
    numerals::lemma_number_chars(value, style, places);
    let t = restyle::render_number_spec(value, style, places);
    assert forall|i: int| 0 <= i < t.len() implies !text::is_white(#[trigger] t[i]) by {
        assert(t[i] == '-' || CharClass::NumChar.has(t[i]));
    }
    assert forall|c: char| foreign(c) implies !#[trigger] t.contains(c) by {
        if t.contains(c) {
            let k = choose|k: int| 0 <= k < t.len() && t[k] == c;
            assert(t[k] == '-' || CharClass::NumChar.has(t[k]));
        }
    }
}

/// A text with something in it has words.
proof fn lemma_some_words(s: Seq<char>)
    requires
        s.len() > 0,
        !text::is_white(s[0]),
    ensures
        text::words_spec(s).len() > 0,
{
    text::lemma_run_is(s, CharClass::White, true, 0);
    assert(s.skip(0) =~= s);
}

/// Whether a foreign character is kept out of the parts of an amount.
pub open spec fn without(num: Seq<char>, commodity: Seq<char>, rest: Seq<Seq<char>>, c: char) -> bool {
    &&& !num.contains(c)
    &&& !commodity.contains(c)
    &&& forall|i: int| 0 <= i < rest.len() ==> !(#[trigger] rest[i]).contains(c)
}

/// A restyled tail consists of words, and of no foreign characters that were
/// not there.
proof fn lemma_tail_plain(rest: Seq<Seq<char>>, ctx: Ctx, places: Places)
    requires
        clean(ctx),
        tokens::all_words(rest),
    ensures
        ({
            let t = restyle::restyle_tail_spec(rest, ctx, places);
            &&& tokens::all_words(t)
            &&& (rest.len() > 0 ==> t.len() > 0)
            &&& forall|c: char, i: int|
                #![trigger t[i].contains(c)]
                foreign(c) && 0 <= i < t.len() && (forall|j: int|
                    0 <= j < rest.len() ==> !(#[trigger] rest[j]).contains(c)) ==> !t[i].contains(
                    c,
                )
        }),
    decreases rest.len(),
{
    let t = restyle::restyle_tail_spec(rest, ctx, places);
    if rest.len() == 0 {
    } else if !lex::is_rest_start_spec(rest[0]) {
        let more = rest.skip(1);
        assert forall|i: int| 0 <= i < more.len() implies tokens::is_word(#[trigger] more[i]) by {
            assert(more[i] == rest[i + 1]);
        }
        lemma_tail_plain(more, ctx, places);
        let tm = restyle::restyle_tail_spec(more, ctx, places);
        assert(t == seq![rest[0]] + tm);
        lemma_tail_joined(rest, seq![rest[0]], tm, more, t);
    } else {
        let op = rest[0].take(amount::op_len_spec(rest[0]));
        let k = lex::rest_at_spec(rest.skip(1));
        restyle::lemma_rest_at(rest.skip(1));
        let operand = amount::operand_spec(rest);
        let group = text::join_spec(operand, " "@);
        let more = rest.skip(1).skip(k);
        assert forall|i: int| 0 <= i < more.len() implies tokens::is_word(#[trigger] more[i]) by {
            assert(more[i] == rest[i + 1 + k]);
        }
        lemma_tail_plain(more, ctx, places);
        let tm = restyle::restyle_tail_spec(more, ctx, places);
        assert(tokens::is_word(rest[0]));
        match restyle::restyle_text_spec(group, ctx, places) {
            None => {
                let written = seq![rest[0]] + rest.skip(1).take(k);
                assert(t == written + tm);
                assert forall|i: int| 0 <= i < written.len() implies tokens::is_word(
                    #[trigger] written[i],
                ) && rest.contains(written[i]) by {
                    assert(written[i] == rest[i]);
                }
                lemma_tail_joined(rest, written, tm, more, t);
            },
            Some(s) => {
                let written = seq![op] + text::words_spec(s);
                assert(t == written + tm);
                lemma_op_word(rest[0]);
                tokens::lemma_words_are_words(s);
                assert forall|i: int| 0 <= i < written.len() implies tokens::is_word(
                    #[trigger] written[i],
                ) by {
                    if i > 0 {
                        assert(written[i] == text::words_spec(s)[i - 1]);
                    }
                }
                assert forall|c: char, i: int|
                    #![trigger written[i].contains(c)]
                    foreign(c) && 0 <= i < written.len() && (forall|j: int|
                        0 <= j < rest.len() ==> !(#[trigger] rest[j]).contains(c))
                    implies !written[i].contains(c) by {
                    if written[i].contains(c) {
                        let x = choose|x: int| 0 <= x < written[i].len() && written[i][x] == c;
                        if i == 0 {
                            assert(rest[0][x] == c);
                            assert(rest[0].contains(c));
                        } else {
                            assert(written[i] == text::words_spec(s)[i - 1]);
                            assert(s.contains(text::words_spec(s)[i - 1][x]));
                            lemma_group_plain(rest, ctx, places, c);
                        }
                    }
                }
                assert forall|c: char, i: int|
                    #![trigger t[i].contains(c)]
                    foreign(c) && 0 <= i < t.len() && (forall|j: int|
                        0 <= j < rest.len() ==> !(#[trigger] rest[j]).contains(c)) implies !t[i].contains(
                    c,
                ) by {
                    if i < written.len() {
                        assert(t[i] == written[i]);
                        assert(!written[i].contains(c));
                    } else {
                        assert(t[i] == tm[i - written.len()]);
                        assert forall|j: int| 0 <= j < more.len() implies !(
                        #[trigger] more[j]).contains(c) by {
                            assert(more[j] == rest[j + 1 + k]);
                        }
                        assert(!tm[i - written.len()].contains(c));
                    }
                }
                assert forall|i: int| 0 <= i < t.len() implies tokens::is_word(#[trigger] t[i]) by {
                    if i < written.len() {
                        assert(t[i] == written[i]);
                    } else {
                        assert(t[i] == tm[i - written.len()]);
                    }
                }
            },
        }
    }
}

/// Tokens that stood in a tail, in front of a tail restyled.
proof fn lemma_tail_joined(
    rest: Seq<Seq<char>>,
    written: Seq<Seq<char>>,
    tm: Seq<Seq<char>>,
    more: Seq<Seq<char>>,
    t: Seq<Seq<char>>,
)
    requires
        tokens::all_words(rest),
        t == written + tm,
        tokens::all_words(tm),
        forall|i: int| 0 <= i < written.len() ==> rest.contains(#[trigger] written[i]),
        forall|i: int| 0 <= i < more.len() ==> rest.contains(#[trigger] more[i]),
        forall|c: char, i: int|
            #![trigger tm[i].contains(c)]
            foreign(c) && 0 <= i < tm.len() && (forall|j: int|
                0 <= j < more.len() ==> !(#[trigger] more[j]).contains(c)) ==> !tm[i].contains(c),
    ensures
        tokens::all_words(t),
        forall|c: char, i: int|
            #![trigger t[i].contains(c)]
            foreign(c) && 0 <= i < t.len() && (forall|j: int|
                0 <= j < rest.len() ==> !(#[trigger] rest[j]).contains(c)) ==> !t[i].contains(c),
{
    assert forall|i: int| 0 <= i < t.len() implies tokens::is_word(#[trigger] t[i]) by {
        if i < written.len() {
            assert(t[i] == written[i]);
            let j = choose|j: int| 0 <= j < rest.len() && rest[j] == written[i];
            assert(tokens::is_word(rest[j]));
        } else {
            assert(t[i] == tm[i - written.len()]);
        }
    }
    assert forall|c: char, i: int|
        #![trigger t[i].contains(c)]
        foreign(c) && 0 <= i < t.len() && (forall|j: int|
            0 <= j < rest.len() ==> !(#[trigger] rest[j]).contains(c)) implies !t[i].contains(c) by {
        if i < written.len() {
            assert(t[i] == written[i]);
            let j = choose|j: int| 0 <= j < rest.len() && rest[j] == written[i];
            assert(!rest[j].contains(c));
        } else {
            assert(t[i] == tm[i - written.len()]);
            assert forall|j: int| 0 <= j < more.len() implies !(#[trigger] more[j]).contains(c) by {
                let x = choose|x: int| 0 <= x < rest.len() && rest[x] == more[j];
                assert(!rest[x].contains(c));
            }
            assert(!tm[i - written.len()].contains(c));
        }
    }
}

/// An operator is a word.
pub proof fn lemma_op_word(tok: Seq<char>)
    requires
        tokens::is_word(tok),
        lex::is_rest_start_spec(tok),
    ensures
        ({
            let op = tok.take(amount::op_len_spec(tok));
            &&& 0 < amount::op_len_spec(tok) <= tok.len()
            &&& tokens::is_word(op)
            &&& lex::is_rest_start_spec(op)
            &&& amount::op_len_spec(op) == op.len()
            &&& op.take(amount::op_len_spec(op)) == op
        }),
{
    let n = amount::op_len_spec(tok);
    let op = tok.take(n);
    assert forall|i: int| 0 <= i < op.len() implies !text::is_white(#[trigger] op[i]) by {
        assert(op[i] == tok[i]);
    }
    assert(op[0] == tok[0]);
    if n > 1 {
        assert(op[1] == tok[1]);
    }
    if n > 2 {
        assert(op[2] == tok[2]);
    }
    assert(op.take(op.len() as int) =~= op);
}

/// The tokens behind an operator are words.
pub proof fn lemma_operand(rest: Seq<Seq<char>>)
    requires
        tokens::all_words(rest),
        rest.len() > 0,
        lex::is_rest_start_spec(rest[0]),
    ensures
        tokens::all_words(amount::operand_spec(rest)),
        forall|c: char, i: int|
            #![trigger amount::operand_spec(rest)[i].contains(c)]
            0 <= i < amount::operand_spec(rest).len() && (forall|j: int|
                0 <= j < rest.len() ==> !(#[trigger] rest[j]).contains(c))
                ==> !amount::operand_spec(rest)[i].contains(c),
{
    assert(tokens::is_word(rest[0]));
    lemma_op_word(rest[0]);
    let n = amount::op_len_spec(rest[0]);
    let left = rest[0].skip(n);
    let k = lex::rest_at_spec(rest.skip(1));
    restyle::lemma_rest_at(rest.skip(1));
    let a = amount::attached_spec(rest[0]);
    let b = rest.skip(1).take(k);
    let o = amount::operand_spec(rest);
    assert(o == a + b);
    assert forall|i: int| 0 <= i < left.len() implies !text::is_white(#[trigger] left[i]) by {
        assert(left[i] == rest[0][n + i]);
    }
    assert forall|i: int| 0 <= i < o.len() implies tokens::is_word(#[trigger] o[i]) by {
        if i < a.len() {
            assert(o[i] == left);
        } else {
            assert(o[i] == rest[1 + i - a.len()]);
        }
    }
    assert forall|c: char, i: int|
        #![trigger o[i].contains(c)]
        0 <= i < o.len() && (forall|j: int|
            0 <= j < rest.len() ==> !(#[trigger] rest[j]).contains(c)) implies !o[i].contains(c) by {
        if i < a.len() {
            assert(o[i] == left);
            if left.contains(c) {
                let x = choose|x: int| 0 <= x < left.len() && left[x] == c;
                assert(rest[0][n + x] == c);
                assert(rest[0].contains(c));
            }
        } else {
            assert(o[i] == rest[1 + i - a.len()]);
        }
    }
}

/// How the tokens of an amount fall into number, commodity and tail: the
/// number is made of the first of them, and the rest are tokens.
pub proof fn lemma_split_parts(toks: Seq<Seq<char>>)
    requires
        tokens::all_words(toks),
    ensures
        ({
            let (num, commodity, rest) = lex::split_amount_spec(toks);
            &&& commodity.len() > 0 ==> tokens::is_word(commodity)
            &&& tokens::all_words(rest)
            &&& num.len() == 0 ==> commodity.len() == 0
            &&& num.len() > 0 ==> !text::is_white(num[0]) && !text::is_white(num.last())
            &&& reread::amount_words(num, commodity, rest) == toks
            &&& forall|c: char|
                c != ' ' && (forall|j: int|
                    0 <= j < toks.len() ==> !(#[trigger] toks[j]).contains(c)) ==> #[trigger] without(
                    num,
                    commodity,
                    rest,
                    c,
                )
        }),
{
    let cut = lex::rest_at_spec(toks);
    restyle::lemma_rest_at(toks);
    let amt = toks.take(cut);
    let tail = toks.skip(cut);
    let (num, commodity, rest) = lex::split_amount_spec(toks);
    let none = Seq::<Seq<char>>::empty();
    assert forall|i: int| 0 <= i < amt.len() implies tokens::is_word(#[trigger] amt[i]) by {
        assert(amt[i] == toks[i]);
    }
    if amt.len() > 0 && lex::is_number_like_spec(amt[0]) {
        let g = lex::groups_spec(amt.skip(1));
        lemma_groups(amt.skip(1));
        let n = 1 + g;
        let head = amt.take(n);
        assert forall|i: int| 0 <= i < head.len() implies tokens::is_word(#[trigger] head[i]) by {
            assert(head[i] == amt[i]);
        }
        assert(num == text::join_spec(head, " "@));
        tokens::lemma_words_join(head);
        tokens::lemma_join_ends(head);
        assert(tokens::is_word(head[0]));
        assert(tokens::is_word(head[head.len() - 1]));
        if n < amt.len() {
            assert(commodity == amt[n]);
            assert(rest == amt.skip(n + 1) + tail);
            assert(tokens::is_word(amt[n]));
            assert forall|i: int| 0 <= i < rest.len() implies tokens::is_word(#[trigger] rest[i])
                && rest[i] == toks[i + n + 1] by {
                if i < amt.len() - n - 1 {
                    assert(rest[i] == amt[i + n + 1]);
                } else {
                    assert(rest[i] == tail[i - (amt.len() - n - 1)]);
                }
            }
            assert(reread::amount_words(num, commodity, rest) =~= toks);
        } else {
            assert(rest == tail);
            assert(head =~= amt);
            assert forall|i: int| 0 <= i < rest.len() implies tokens::is_word(#[trigger] rest[i])
                && rest[i] == toks[i + cut] by {}
            assert(reread::amount_words(num, commodity, rest) =~= toks);
        }
        assert forall|c: char|
            c != ' ' && (forall|j: int| 0 <= j < toks.len() ==> !(#[trigger] toks[j]).contains(c))
            implies #[trigger] without(num, commodity, rest, c) by {
            assert forall|k: int| 0 <= k < head.len() implies !(#[trigger] head[k]).contains(c) by {
                assert(head[k] == toks[k]);
            }
            tokens::lemma_join_chars(head, c);
            if n < amt.len() {
                assert(commodity == toks[n]);
            }
        }
    } else {
        assert(num == text::join_spec(amt, " "@));
        tokens::lemma_words_join(amt);
        if amt.len() > 0 {
            tokens::lemma_join_ends(amt);
            assert(tokens::is_word(amt[0]));
            assert(tokens::is_word(amt[amt.len() - 1]));
        }
        assert(rest == tail);
        assert forall|i: int| 0 <= i < rest.len() implies tokens::is_word(#[trigger] rest[i])
            && rest[i] == toks[i + cut] by {}
        assert(reread::amount_words(num, commodity, rest) =~= toks);
        assert forall|c: char|
            c != ' ' && (forall|j: int| 0 <= j < toks.len() ==> !(#[trigger] toks[j]).contains(c))
            implies #[trigger] without(num, commodity, rest, c) by {
            assert forall|k: int| 0 <= k < amt.len() implies !(#[trigger] amt[k]).contains(c) by {
                assert(amt[k] == toks[k]);
            }
            tokens::lemma_join_chars(amt, c);
        }
    }
}

pub proof fn lemma_groups(toks: Seq<Seq<char>>)
    ensures
        0 <= lex::groups_spec(toks) <= toks.len(),
    decreases toks.len(),
{
    if toks.len() > 0 && lex::is_digit_group_spec(toks[0]) {
        lemma_groups(toks.skip(1));
    }
}

/// What an amount behind an operator is restyled to holds no foreign
/// character that its tail does not hold.
proof fn lemma_group_plain(rest: Seq<Seq<char>>, ctx: Ctx, places: Places, c: char)
    requires
        clean(ctx),
        tokens::all_words(rest),
        rest.len() > 0,
        lex::is_rest_start_spec(rest[0]),
        foreign(c),
        forall|j: int| 0 <= j < rest.len() ==> !(#[trigger] rest[j]).contains(c),
    ensures
        restyle::restyle_text_spec(
            text::join_spec(amount::operand_spec(rest), " "@),
            ctx,
            places,
        ) matches Some(s) ==> !s.contains(c),
{
    let o = amount::operand_spec(rest);
    lemma_operand(rest);
    let group = text::join_spec(o, " "@);
    tokens::lemma_words_join(o);
    lemma_split_parts(o);
    let (num, commodity, tail) = lex::split_amount_spec(o);
    assert forall|j: int| 0 <= j < o.len() implies !(#[trigger] o[j]).contains(c) by {}
    assert(without(num, commodity, tail, c));
    if let Some((value, name, st)) = restyle::restylable_spec(num, commodity, ctx, places) {
        lemma_face_name(num, commodity, ctx);
        assert(!name.contains(c)) by {
            if name.contains(c) {
                let i = choose|i: int| 0 <= i < name.len() && name[i] == c;
                assert(num.contains(name[i]) || commodity.contains(name[i]));
            }
        }
        assert(numerals::punctuated(ctx.styles[name]));
        numerals::lemma_under(ctx.styles[name], ctx.decimal_mark);
        lemma_styled_chars(value, name, st, places.places_of(value, st));
    }
}

/// A restyled face is a face that can be read back.
proof fn lemma_fields_plain(num: Seq<char>, commodity: Seq<char>, ctx: Ctx, places: Places)
    requires
        clean(ctx),
        commodity.len() > 0 ==> tokens::is_word(commodity),
    ensures
        restyle::restyle_fields_spec(num, commodity, ctx, places) matches Some((n, c)) ==> {
            &&& n.len() > 0
            &&& !text::is_white(n[0])
            &&& !text::is_white(n.last())
            &&& c.len() > 0 ==> tokens::is_word(c)
            &&& text::words_spec(n).len() > 0
            &&& forall|x: char|
                foreign(x) && !num.contains(x) && !commodity.contains(x) ==> !#[trigger] n.contains(
                    x,
                ) && !c.contains(x)
        },
{
    if let Some((value, name, st)) = restyle::restylable_spec(num, commodity, ctx, places) {
        lemma_face_name(num, commodity, ctx);
        assert(numerals::punctuated(ctx.styles[name]));
        numerals::lemma_under(ctx.styles[name], ctx.decimal_mark);
        let n = places.places_of(value, st);
        lemma_number_plain(value, st, n);
        lemma_styled_chars(value, name, st, n);
        let (a, b) = restyle::restyle_fields_spec(num, commodity, ctx, places)->0;
        lemma_some_words(a);
        assert forall|x: char|
            foreign(x) && !num.contains(x) && !commodity.contains(x) implies !#[trigger] a.contains(
            x,
        ) && !b.contains(x) by {
            assert(!name.contains(x)) by {
                if name.contains(x) {
                    let i = choose|i: int| 0 <= i < name.len() && name[i] == x;
                    assert(num.contains(name[i]) || commodity.contains(name[i]));
                }
            }
        }
    }
}

/// Whether the parts of a posting hold no such character.
pub open spec fn post_without(p: Post, c: char) -> bool {
    match p {
        Post::Comment(t) => !t.contains(c),
        Post::Bare(account, comment) => {
            &&& !account.contains(c)
            &&& comment matches Some(t) ==> !t.contains(c)
        },
        Post::Amount { account, num, commodity, rest, comment } => {
            &&& !account.contains(c)
            &&& without(num, commodity, rest, c)
            &&& comment matches Some(t) ==> !t.contains(c)
        },
    }
}

/// A posting that can be read back can be once it is restyled, and holds no
/// newline that it did not hold.
pub proof fn lemma_restyled_plain(p: Post, ctx: Ctx, places: Places)
    requires
        clean(ctx),
        reread::plain_post(p),
    ensures
        reread::plain_post(posting::restyle_post_spec(p, ctx, places)),
        post_without(p, '\n') ==> post_without(posting::restyle_post_spec(p, ctx, places), '\n'),
{
    if let Post::Amount { account, num, commodity, rest, comment } = p {
        lemma_fields_plain(num, commodity, ctx, places);
        lemma_tail_plain(rest, ctx, places);
        let t = restyle::restyle_tail_spec(rest, ctx, places);
        let (n2, c2) = match restyle::restyle_fields_spec(num, commodity, ctx, places) {
            Some(fields) => fields,
            None => (num, commodity),
        };
        assert(reread::amount_words(n2, c2, t).len() > 0) by {
            if restyle::restyle_fields_spec(num, commodity, ctx, places) is None {
                if rest.len() == 0 {
                    assert(reread::amount_words(num, commodity, rest).len() > 0);
                }
            }
        }
        assert forall|i: int| 0 <= i < t.len() implies !(#[trigger] t[i]).contains(';') by {}
        assert(reread::plain_amount(num, commodity, rest));
        match restyle::restyle_fields_spec(num, commodity, ctx, places) {
            Some((a, b)) => {
                assert(foreign(';') && foreign('\n'));
                assert(!num.contains(';'));
                assert(!commodity.contains(';'));
                assert(!a.contains(';'));
                assert(!b.contains(';'));
                assert(!a.contains('\n') || num.contains('\n') || commodity.contains('\n'));
            },
            None => {},
        }
        assert(!n2.contains(';') && !c2.contains(';'));
        assert(n2.len() == 0 ==> c2.len() == 0);
        assert(reread::plain_amount(n2, c2, t));
        assert(!n2.contains('\n') || num.contains('\n') || commodity.contains('\n'));
        if post_without(p, '\n') {
            assert forall|i: int| 0 <= i < t.len() implies !(#[trigger] t[i]).contains('\n') by {}
        }
    }
}

/// A text that is not blank has words.
proof fn lemma_words_unless_blank(s: Seq<char>)
    requires
        s.len() > 0,
        !text::is_white(s.last()),
    ensures
        text::words_spec(s).len() > 0,
{
    text::lemma_run(s, CharClass::White, true);
    let r = text::run_spec(s, CharClass::White, true);
    if r == s.len() {
        assert(CharClass::White.has(s[s.len() - 1]));
    }
}

/// The body of a posting line comes apart into an account that can be read
/// back and an amount.
proof fn lemma_body_parts(body: Seq<char>)
    requires
        body.len() > 0,
        !text::is_white(body[0]),
        !text::is_white(body.last()),
        !body.contains(';'),
    ensures
        ({
            let (account, amt) = lex::split_account_spec(body);
            &&& reread::plain_account(account)
            &&& amt.len() == 0 ==> account == body
            &&& amt.len() > 0 ==> !text::is_white(amt.last())
            &&& forall|i: int| 0 <= i < amt.len() ==> body.contains(#[trigger] amt[i])
            &&& forall|i: int| 0 <= i < account.len() ==> body.contains(#[trigger] account[i])
        }),
{
    let n = lex::gap_spec(body);
    reread::lemma_gap(body);
    let account = body.take(n);
    let after = body.skip(n);
    let amt = lex::split_account_spec(body).1;
    text::lemma_run(after, CharClass::Gap, true);
    let k = text::run_spec(after, CharClass::Gap, true);
    assert(n > 0) by {
        if n == 0 {
            assert(CharClass::Gap.has(body[0]));
        }
    }
    assert forall|i: int| 0 <= i < account.len() implies body.contains(#[trigger] account[i]) by {
        assert(account[i] == body[i]);
    }
    assert forall|i: int| 0 <= i < amt.len() implies body.contains(#[trigger] amt[i]) by {
        assert(amt[i] == body[n + k + i]);
    }
    if account.contains(';') {
        let i = choose|i: int| 0 <= i < account.len() && account[i] == ';';
        assert(body[i] == ';');
    }
    reread::lemma_gap(account);
    let g = lex::gap_spec(account);
    if g < account.len() {
        assert(account[g] == body[g]);
        assert(account[g + 1] == body[g + 1]);
    }
    assert(account.last() == body[n - 1]);
    if n < body.len() {
        assert(CharClass::Gap.has(body[n]));
        assert(!(CharClass::Gap.has(body[n - 1]) && CharClass::Gap.has(body[n])));
        assert(k < after.len()) by {
            if k == after.len() {
                assert(CharClass::Gap.has(after[after.len() - 1]));
                assert(after[after.len() - 1] == body.last());
            }
        }
        assert(amt.last() == body.last());
    } else {
        assert(account =~= body);
        assert(after.len() == 0);
    }
}

/// A posting line reads as a posting that can be read back, and is read back
/// as what it was.
pub proof fn lemma_parsed_plain(l: Seq<char>)
    requires
        !lex::is_blank_spec(l),
    ensures
        reread::plain_post(posting::parse_posting_spec(l)),
        reread::reread(posting::parse_posting_spec(l)) == posting::parse_posting_spec(l),
        !l.contains('\n') ==> post_without(posting::parse_posting_spec(l), '\n'),
{
    let t = text::trim_start_spec(l, CharClass::White);
    reread::lemma_trim_start(l);
    let from = choose|n: int| 0 <= n <= l.len() && #[trigger] l.skip(n) == t;
    let s = lex::rstrip_spec(t);
    reread::lemma_rstrip(t);
    assert(!lex::is_blank_spec(t)) by {
        if lex::is_blank_spec(t) {
            assert(text::is_white(t[0]));
        }
    }
    assert(s[0] == t[0]);
    assert forall|i: int| 0 <= i < s.len() implies l.contains(#[trigger] s[i]) by {
        assert(s[i] == t[i]);
        assert(t[i] == l[from + i]);
    }
    let p = posting::parse_posting_spec(l);
    if s[0] != ';' {
        let class = CharClass::Is(';');
        let (body, comment) = lex::split_comment_spec(s);
        text::lemma_run(s, class, false);
        let at = text::run_spec(s, class, false);
        let head = if at < s.len() {
            s.take(at)
        } else {
            s
        };
        reread::lemma_rstrip(head);
        assert(body == lex::rstrip_spec(head));
        assert(at > 0);
        assert(head[0] == s[0]);
        assert(!lex::is_blank_spec(head)) by {
            if lex::is_blank_spec(head) {
                assert(text::is_white(head[0]));
            }
        }
        assert(body[0] == head[0]);
        assert forall|i: int| 0 <= i < body.len() implies s.contains(#[trigger] body[i]) && body[i]
            != ';' by {
            assert(body[i] == head[i]);
            assert(head[i] == s[i]);
            assert(class.has(s[i]) == false);
        }
        assert(!body.contains(';'));
        if at < s.len() {
            let c = s.skip(at);
            assert(comment == Some(c));
            assert(c[0] == s[at]);
            assert(c.last() == s.last());
            if c.contains('\n') {
                let i = choose|i: int| 0 <= i < c.len() && c[i] == '\n';
                assert(s[at + i] == '\n');
                assert(l.contains(s[at + i]));
            }
        }
        lemma_body_parts(body);
        let (account, amt) = lex::split_account_spec(body);
        if account.contains('\n') {
            let i = choose|i: int| 0 <= i < account.len() && account[i] == '\n';
            assert(body.contains(account[i]));
            let j = choose|j: int| 0 <= j < body.len() && body[j] == account[i];
            assert(s.contains(body[j]));
            let k = choose|k: int| 0 <= k < s.len() && s[k] == body[j];
            assert(l.contains(s[k]));
        }
        if amt.len() > 0 {
            let toks = text::words_spec(amt);
            tokens::lemma_words_are_words(amt);
            lemma_words_unless_blank(amt);
            lemma_split_parts(toks);
            let (num, commodity, rest) = lex::split_amount_spec(toks);
            assert forall|j: int| 0 <= j < toks.len() implies !(#[trigger] toks[j]).contains(';')
                && !toks[j].contains('\n') by {
                if toks[j].contains(';') {
                    let x = choose|x: int| 0 <= x < toks[j].len() && toks[j][x] == ';';
                    assert(amt.contains(toks[j][x]));
                    let y = choose|y: int| 0 <= y < amt.len() && amt[y] == toks[j][x];
                    assert(body.contains(amt[y]));
                }
                if toks[j].contains('\n') {
                    let x = choose|x: int| 0 <= x < toks[j].len() && toks[j][x] == '\n';
                    assert(tokens::is_word(toks[j]));
                    assert(!text::is_white(toks[j][x]));
                }
            }
            assert(without(num, commodity, rest, ';'));
            assert(without(num, commodity, rest, '\n'));
            assert(reread::plain_amount(num, commodity, rest));
        }
    } else {
        assert(!s.contains('\n') || l.contains('\n')) by {
            if s.contains('\n') {
                let i = choose|i: int| 0 <= i < s.len() && s[i] == '\n';
                assert(l.contains(s[i]));
            }
        }
    }
}

/// A laid-out posting holds no newline that its parts do not hold, and is an
/// indented line.
pub proof fn lemma_laid_out_line(acc_w: nat, num_w: nat, p: Post)
    requires
        reread::plain_post(p),
        post_without(p, '\n'),
    ensures
        !posting::render_spec(acc_w, num_w, p).contains('\n'),
        lex::is_indented_spec(posting::render_spec(acc_w, num_w, p)),
        posting::render_spec(acc_w, num_w, p)[0] == ' ',
{
    reveal_strlit("    ");
    reveal_strlit("  ");
    reveal_strlit(" ");
    let line = posting::render_spec(acc_w, num_w, p);
    assert(line[0] == ' ');
    match p {
        Post::Comment(c) => {
            assert(line[4] == c[0]);
            lemma_concat_without("    "@, c, '\n');
        },
        Post::Bare(account, comment) => {
            assert(line[4] == account[0]);
            lemma_concat_without("    "@, account, '\n');
            lemma_comment_without(comment);
            lemma_concat_without(
                "    "@ + account,
                posting::comment_part_spec(comment),
                '\n',
            );
        },
        Post::Amount { account, num, commodity, rest, comment } => {
            let padded = posting::pad_right_spec(account, acc_w);
            assert(padded[0] == account[0]);
            assert(line[4] == account[0]);
            if account.len() < acc_w {
                let w = text::repeat_spec(' ', (acc_w - account.len()) as nat);
                assert(!w.contains('\n'));
                lemma_concat_without(account, w, '\n');
            }
            let field = posting::amount_field_spec(num_w, num, commodity, rest);
            lemma_field_without(num_w, num, commodity, rest);
            let tail = if rest.len() == 0 {
                Seq::<char>::empty()
            } else {
                " "@ + text::join_spec(rest, " "@)
            };
            tokens::lemma_join_chars(rest, '\n');
            lemma_concat_without(" "@, text::join_spec(rest, " "@), '\n');
            lemma_comment_without(comment);
            lemma_concat_without("    "@, padded, '\n');
            lemma_concat_without("    "@ + padded, "  "@, '\n');
            lemma_concat_without("    "@ + padded + "  "@, field, '\n');
            lemma_concat_without("    "@ + padded + "  "@ + field, tail, '\n');
            lemma_concat_without(
                "    "@ + padded + "  "@ + field + tail,
                posting::comment_part_spec(comment),
                '\n',
            );
        },
    }
    assert(!lex::is_blank_spec(line)) by {
        if lex::is_blank_spec(line) {
            assert(text::is_white(line[4]));
        }
    }
}

proof fn lemma_concat_without(a: Seq<char>, b: Seq<char>, c: char)
    requires
        !a.contains(c),
        !b.contains(c),
    ensures
        !(a + b).contains(c),
{
    let ab = a + b;
    if ab.contains(c) {
        let i = choose|i: int| 0 <= i < ab.len() && ab[i] == c;
        if i < a.len() {
            assert(a[i] == c);
        } else {
            assert(b[i - a.len()] == c);
        }
    }
}

proof fn lemma_comment_without(comment: Option<Seq<char>>)
    requires
        comment matches Some(t) ==> !t.contains('\n'),
    ensures
        !posting::comment_part_spec(comment).contains('\n'),
{
    reveal_strlit("  ");
    if let Some(t) = comment {
        lemma_concat_without("  "@, t, '\n');
    }
}

proof fn lemma_field_without(num_w: nat, num: Seq<char>, commodity: Seq<char>, rest: Seq<Seq<char>>)
    requires
        !num.contains('\n'),
        !commodity.contains('\n'),
    ensures
        !posting::amount_field_spec(num_w, num, commodity, rest).contains('\n'),
{
    reveal_strlit(" ");
    let field = posting::amount_field_spec(num_w, num, commodity, rest);
    if num.len() == 0 {
        assert forall|i: int| 0 <= i < field.len() implies field[i] == ' ' by {}
    } else {
        let lead = text::repeat_spec(' ', (num_w - num.len()) as nat);
        assert(!lead.contains('\n'));
        lemma_concat_without(lead, num, '\n');
        let padded = posting::pad_left_spec(num, num_w);
        lemma_concat_without(padded, " "@, '\n');
        lemma_concat_without(padded + " "@, commodity, '\n');
    }
}

} // verus!
