//! What formatting leaves a journal saying.

use vstd::prelude::*;
use crate::amount::{self, Ctx};
use crate::decimal::Num;
use crate::fmt::{self, Classify, Options};
use crate::fmt::blank;
use crate::fmt::explicit::Line;
use crate::fmt::kept;
use crate::fmt::laws;
use crate::fmt::posting::{self, Post};
use crate::fmt::reread;
use crate::fmt::settle;
use crate::fmt::steady;
use crate::lex;
use crate::restyle::{self, Places};
use crate::text;
use crate::tokens;

verus! {

/// What the tokens behind a cost or assertion operator say: an amount of a
/// commodity, or just themselves.
pub enum Operand {
    Amount(Num, Seq<char>),
    Tokens(Seq<Seq<char>>),
}

/// What a piece of an amount's tail says: a token by itself, or an operator
/// with what it applies to.
pub enum Said {
    Token(Seq<char>),
    Part(Seq<char>, Operand),
}

/// What the tokens behind an operator say.
pub open spec fn operand_says(toks: Seq<Seq<char>>, ctx: Ctx) -> Operand {
    let (num, commodity, more) = lex::split_amount_spec(toks);
    match amount::parse_face_spec(num, commodity, ctx) {
        Some((value, name)) if more.len() == 0 => Operand::Amount(value, name),
        _ => Operand::Tokens(toks),
    }
}

/// What the tail of an amount says, piece by piece.
pub open spec fn tail_says(rest: Seq<Seq<char>>, ctx: Ctx) -> Seq<Said>
    decreases rest.len(),
{
    if rest.len() == 0 {
        Seq::empty()
    } else if !lex::is_rest_start_spec(rest[0]) {
        seq![Said::Token(rest[0])] + tail_says(rest.skip(1), ctx)
    } else {
        let op = rest[0].take(amount::op_len_spec(rest[0]));
        let k = lex::rest_at_spec(rest.skip(1));
        proof {
            restyle::lemma_rest_at(rest.skip(1));
        }
        seq![Said::Part(op, operand_says(amount::operand_spec(rest), ctx))] + tail_says(
            rest.skip(1).skip(k),
            ctx,
        )
    }
}

/// What an amount contributes to its transaction's balance, where its number
/// can be read.
pub open spec fn contributes(
    num: Seq<char>,
    commodity: Seq<char>,
    rest: Seq<Seq<char>>,
    ctx: Ctx,
) -> Option<(Num, Seq<char>)> {
    match amount::parse_face_spec(num, commodity, ctx) {
        Some((value, name)) => amount::contribution_spec(value, name, rest, ctx),
        None => None,
    }
}

/// Whether two postings say the same: the same comment, the same account, and
/// amounts of the same number, commodity, costs and assertions, which
/// contribute the same to the balance.
pub open spec fn says_the_same(p: Post, q: Post, ctx: Ctx) -> bool {
    match (p, q) {
        (
            Post::Amount { account, num, commodity, rest, comment },
            Post::Amount {
                account: account2,
                num: num2,
                commodity: commodity2,
                rest: rest2,
                comment: comment2,
            },
        ) => {
            &&& account2 == account
            &&& comment2 == comment
            &&& amount::parse_face_spec(num2, commodity2, ctx) == amount::parse_face_spec(
                num,
                commodity,
                ctx,
            )
            &&& tail_says(rest2, ctx) == tail_says(rest, ctx)
            &&& contributes(num2, commodity2, rest2, ctx) == contributes(num, commodity, rest, ctx)
        },
        (p, q) => p == q,
    }
}

/// What an operator and its amount say, with more behind them.
proof fn lemma_part_says(
    op: Seq<char>,
    words: Seq<Seq<char>>,
    more: Seq<Seq<char>>,
    ctx: Ctx,
)
    requires
        lex::is_rest_start_spec(op),
        steady::loose(words),
        steady::starts_rest(more),
    ensures
        ({
            let all = seq![op] + words + more;
            &&& amount::operand_spec(all) == amount::attached_spec(op) + words
            &&& tail_says(all, ctx) == seq![
                Said::Part(
                    op.take(amount::op_len_spec(op)),
                    operand_says(amount::attached_spec(op) + words, ctx),
                ),
            ] + tail_says(more, ctx)
        }),
{
    let all = seq![op] + words + more;
    let later = all.skip(1);
    assert(later =~= words + more);
    steady::lemma_rest_at_is(words, more);
    let k = words.len() as int;
    assert(later.take(k) =~= words);
    assert(later.skip(k) =~= more);
    assert(all[0] == op);
}

/// A restyled tail says what it said, and turns a face into the same
/// contribution.
proof fn lemma_tail_said(rest: Seq<Seq<char>>, ctx: Ctx)
    requires
        settle::clean(ctx),
        tokens::all_words(rest),
    ensures
        tail_says(restyle::restyle_tail_spec(rest, ctx, Places::AsWritten), ctx) == tail_says(
            rest,
            ctx,
        ),
        forall|value: Num, name: Seq<char>|
            amount::contribution_spec(
                value,
                name,
                restyle::restyle_tail_spec(rest, ctx, Places::AsWritten),
                ctx,
            ) == #[trigger] amount::contribution_spec(value, name, rest, ctx),
    decreases rest.len(),
{
    let places = Places::AsWritten;
    let t = restyle::restyle_tail_spec(rest, ctx, places);
    if rest.len() == 0 {
    } else if !lex::is_rest_start_spec(rest[0]) {
        let more = rest.skip(1);
        assert forall|i: int| 0 <= i < more.len() implies tokens::is_word(#[trigger] more[i]) by {
            assert(more[i] == rest[i + 1]);
        }
        lemma_tail_said(more, ctx);
        assert(t[0] == rest[0]);
        assert(t.skip(1) =~= restyle::restyle_tail_spec(more, ctx, places));
    } else {
        let later = rest.skip(1);
        let k = lex::rest_at_spec(later);
        steady::lemma_rest_at_cut(later);
        let more = later.skip(k);
        let words = later.take(k);
        assert forall|i: int| 0 <= i < more.len() implies tokens::is_word(#[trigger] more[i]) by {
            assert(more[i] == rest[i + 1 + k]);
        }
        lemma_tail_said(more, ctx);
        steady::lemma_tail_starts(more, ctx, places);
        let tm = restyle::restyle_tail_spec(more, ctx, places);
        let o = amount::operand_spec(rest);
        let group = text::join_spec(o, " "@);
        settle::lemma_operand(rest);
        tokens::lemma_words_join(o);
        match restyle::restyle_text_spec(group, ctx, places) {
            None => {
                assert(t == seq![rest[0]] + words + tm);
                lemma_part_says(rest[0], words, tm, ctx);
                assert(t[0] == rest[0]);
            },
            Some(s) => {
                let op = rest[0].take(amount::op_len_spec(rest[0]));
                assert(tokens::is_word(rest[0]));
                steady::lemma_op(rest[0]);
                assert(t == seq![op] + text::words_spec(s) + tm);
                steady::lemma_operand_again(group, ctx, places);
                lemma_part_says(op, text::words_spec(s), tm, ctx);
                assert(amount::attached_spec(op) =~= Seq::empty());
                assert(amount::attached_spec(op) + text::words_spec(s) =~= text::words_spec(s));
                assert(t[0] == op);
                assert(op[0] == rest[0][0]);
            },
        }
    }
}

/// A posting as it reads once it is restyled says what it said.
proof fn lemma_post_said(p: Post, ctx: Ctx)
    requires
        settle::clean(ctx),
        reread::plain_post(p),
        reread::reread(p) == p,
    ensures
        says_the_same(
            p,
            reread::reread(posting::restyle_post_spec(p, ctx, Places::AsWritten)),
            ctx,
        ),
{
    let places = Places::AsWritten;
    if let Post::Amount { account, num, commodity, rest, comment } = p {
        lemma_tail_said(rest, ctx);
        let t = restyle::restyle_tail_spec(rest, ctx, places);
        steady::lemma_tail_starts(rest, ctx, places);
        steady::lemma_restyled_again(num, commodity, ctx, places);
        steady::lemma_face_apart(num, commodity, t, ctx, places);
        steady::lemma_face_stays(num, commodity, rest, ctx, places);
    }
}

/// Whether a line and what it is written as say the same where the line
/// stands: a posting by what it says, any other line to the letter, but for
/// white space at the end of a transaction header or in a blank line.
pub open spec fn line_says_the_same(l: Seq<char>, w: Seq<char>, class: Line, ctx: Ctx) -> bool {
    match class {
        Line::Post(_) => says_the_same(
            posting::parse_posting_spec(l),
            posting::parse_posting_spec(w),
            ctx,
        ),
        Line::Opaque => w == l,
        Line::Other => {
            ||| w == l
            ||| lex::is_blank_spec(l) && w.len() == 0
            ||| lex::opens_txn_spec(l) && w == lex::rstrip_spec(l)
        },
    }
}

/// Formatting changes the layout of a journal and nothing that it says. Every
/// line but a blank one stays, in order; each posting says what it said, by the
/// styles in effect where it stands; and every other line passes through.
pub proof fn formatting_keeps_what_is_said(s: Seq<char>, ctx: Ctx)
    requires
        settle::clean(ctx),
    ensures
        ({
            let opts = Options { sort: false, explicit: false };
            let ls = blank::normalize_spec(fmt::lines_spec(s));
            let ws = fmt::lines_spec(fmt::format_spec(s, ctx, opts));
            &&& kept::solid(ls) == kept::solid(fmt::lines_spec(s))
            &&& ws.len() == ls.len()
            &&& forall|i: int|
                0 <= i < ls.len() ==> line_says_the_same(
                    #[trigger] ls[i],
                    ws[i],
                    fmt::styled_spec(ls, ctx, opts)[i],
                    fmt::marked(ctx, Classify::over(ls.take(i), ctx, opts).mark),
                )
        }),
{
    let opts = Options { sort: false, explicit: false };
    let src = fmt::lines_spec(s);
    let ls = blank::normalize_spec(src);
    tokens::lemma_lines_hold_no_newline(s);
    laws::lemma_normal_without(src);
    kept::normalizing_keeps_the_lines(src);
    steady::lemma_postings_settle(ls, ctx, opts);
    laws::lemma_reflowed(src, ctx, opts);
    let ws = fmt::format_lines_spec(ls, ctx, opts);
    laws::lemma_format_lines(ls, ctx, opts);
    laws::lemma_classes(ls, ctx, opts);
    let styled = fmt::styled_spec(ls, ctx, opts);
    let ps = fmt::all_posts(styled);
    let acc_w = fmt::account_width(ps);
    let num_w = fmt::number_width(ps);
    assert forall|i: int| 0 <= i < ls.len() implies line_says_the_same(
        #[trigger] ls[i],
        ws[i],
        styled[i],
        fmt::marked(ctx, Classify::over(ls.take(i), ctx, opts).mark),
    ) by {
        let at = Classify::over(ls.take(i), ctx, opts);
        let here = fmt::marked(ctx, at.mark);
        laws::lemma_marks(ls.take(i), ctx, opts);
        assert(styled[i] == laws::class_of(at, ls[i], ctx, opts));
        if let Line::Post(qs) = styled[i] {
            let p = posting::parse_posting_spec(ls[i]);
            settle::lemma_parsed_plain(ls[i]);
            settle::lemma_restyled_plain(p, here, Places::AsWritten);
            lemma_post_said(p, here);
            reread::lemma_laid_out(acc_w, num_w, qs[0]);
        }
    }
}

} // verus!
