//! How journal lines are taken apart.

use vstd::prelude::*;
use crate::amount::{self, Ctx};
use crate::decimal::{self, Num};
use crate::fmt::posting::{self, Post};
use crate::fmt::reread;
use crate::fmt::steady;
use crate::lex;
use crate::shown::{self, digits, is_sign};
use crate::text::{self, CharClass};
use crate::tokens;

verus! {

// ---- accounts ----

/// Whether no two spaces or tabs stand next to each other.
pub open spec fn compact(s: Seq<char>) -> bool {
    forall|i: int|
        0 <= i < s.len() - 1 ==> !(CharClass::Gap.has(#[trigger] s[i]) && CharClass::Gap.has(
            s[i + 1],
        ))
}

/// Whether a text begins and ends in no white space, and is not empty.
pub open spec fn trim(s: Seq<char>) -> bool {
    s.len() > 0 && !text::is_white(s[0]) && !text::is_white(s.last())
}

proof fn lemma_gap_at(a: Seq<char>, rest: Seq<char>)
    requires
        compact(a),
        a.len() == 0 || !CharClass::Gap.has(a.last()),
        rest.len() == 0 || rest.len() >= 2 && CharClass::Gap.has(rest[0]) && CharClass::Gap.has(
            rest[1],
        ),
    ensures
        lex::gap_spec(a + rest) == a.len(),
    decreases a.len(),
{
    let s = a + rest;
    if a.len() == 0 {
        assert(s =~= rest);
    } else {
        let b = a.skip(1);
        assert(s.skip(1) =~= b + rest);
        assert forall|i: int| 0 <= i < b.len() - 1 implies !(CharClass::Gap.has(#[trigger] b[i])
            && CharClass::Gap.has(b[i + 1])) by {
            assert(b[i] == a[i + 1] && b[i + 1] == a[i + 2]);
            assert(!(CharClass::Gap.has(a[i + 1]) && CharClass::Gap.has(a[i + 2])));
        }
        lemma_gap_at(b, rest);
        assert(s[0] == a[0]);
        if s.len() >= 2 && a.len() >= 2 {
            assert(s[1] == a[1]);
            assert(!(CharClass::Gap.has(a[0]) && CharClass::Gap.has(a[1])));
        }
    }
}

/// An account ends at the first two spaces or tabs in a row. One space is part of
/// it.
pub proof fn an_account_ends_at_a_gap(a: Seq<char>, gap: Seq<char>, amt: Seq<char>)
    requires
        compact(a),
        trim(a),
        gap.len() >= 2,
        text::all_spec(gap, CharClass::Gap),
        amt.len() > 0,
        !CharClass::Gap.has(amt[0]),
    ensures
        lex::split_account_spec(a + gap + amt) == (a, amt),
        lex::split_account_spec(a) == (a, Seq::<char>::empty()),
{
    let none = Seq::<char>::empty();
    let s = a + gap + amt;
    assert(s =~= a + (gap + amt));
    assert(CharClass::Gap.has(gap[0]) && CharClass::Gap.has(gap[1]));
    lemma_gap_at(a, gap + amt);
    lemma_gap_at(a, none);
    assert(a + none =~= a);
    let k = a.len() as int;
    assert(s.take(k) =~= a);
    assert(s.skip(k) =~= gap + amt);
    let rest = gap + amt;
    assert forall|i: int| 0 <= i < gap.len() implies CharClass::Gap.has(#[trigger] rest[i])
        == true by {
        assert(rest[i] == gap[i]);
    }
    assert(rest[gap.len() as int] == amt[0]);
    text::lemma_run_is(rest, CharClass::Gap, true, gap.len() as int);
    assert(rest.skip(gap.len() as int) =~= amt);
    assert(a.take(k) =~= a);
    assert(a.skip(k) =~= none);
    text::lemma_run(none, CharClass::Gap, true);
}

/// A posting line is its account, its amount and its comment: the account up to
/// the first gap, the comment from the first semicolon on, and the words between
/// them the amount.
pub proof fn a_posting_line_is_its_parts(
    indent: Seq<char>,
    a: Seq<char>,
    gap: Seq<char>,
    toks: Seq<Seq<char>>,
    comment: Seq<char>,
)
    requires
        text::all_spec(indent, CharClass::White),
        compact(a),
        trim(a),
        !a.contains(';'),
        gap.len() >= 2,
        text::all_spec(gap, CharClass::Gap),
        toks.len() > 0,
        tokens::all_words(toks),
        forall|i: int| 0 <= i < toks.len() ==> !(#[trigger] toks[i]).contains(';'),
        comment.len() == 0 || comment[0] == ';' && !text::is_white(comment.last()),
    ensures
        ({
            let (num, commodity, rest) = lex::split_amount_spec(toks);
            let line = indent + a + gap + text::join_spec(toks, " "@) + (if comment.len() == 0 {
                Seq::<char>::empty()
            } else {
                seq![' '] + comment
            });
            posting::parse_posting_spec(line) == (Post::Amount {
                account: a,
                num,
                commodity,
                rest,
                comment: if comment.len() == 0 {
                    None
                } else {
                    Some(comment)
                },
            })
        }),
{
    let amt = text::join_spec(toks, " "@);
    let body = a + gap + amt;
    let tail = if comment.len() == 0 {
        Seq::<char>::empty()
    } else {
        seq![' '] + comment
    };
    let line = indent + a + gap + amt + tail;
    let s = body + tail;
    tokens::lemma_join_ends(toks);
    tokens::lemma_words_join(toks);
    tokens::lemma_join_chars(toks, ';');
    assert(tokens::is_word(toks[0]));
    assert(tokens::is_word(toks[toks.len() - 1]));
    assert(amt.len() > 0 && !text::is_white(amt[0]) && !text::is_white(amt.last()));
    assert(line =~= indent + s);
    assert(s[0] == a[0]);
    reread::lemma_lead_trimmed(indent, s);
    assert(!text::is_white(s.last())) by {
        if comment.len() == 0 {
            assert(s =~= body);
            assert(s.last() == amt.last());
        } else {
            assert(s.last() == comment.last());
        }
    }
    reread::lemma_rstrip_plain(s);
    let semi = CharClass::Is(';');
    let k = body.len() as int;
    assert forall|i: int| 0 <= i < k implies semi.has(#[trigger] body[i]) == false by {
        if i < a.len() {
            assert(body[i] == a[i]);
            assert(a.contains(a[i]));
        } else if i < a.len() + gap.len() {
            assert(body[i] == gap[i - a.len()]);
            assert(CharClass::Gap.has(gap[i - a.len()]));
        } else {
            assert(body[i] == amt[i - a.len() - gap.len()]);
            assert(amt.contains(amt[i - a.len() - gap.len()]));
        }
    }
    assert(s[0] != ';') by {
        assert(a.contains(a[0]));
    }
    assert(body.last() == amt.last());
    if comment.len() == 0 {
        assert(s =~= body);
        text::lemma_run_is(s, semi, false, k);
    } else {
        assert forall|i: int| 0 <= i < k + 1 implies semi.has(#[trigger] s[i]) == false by {
            if i < k {
                assert(s[i] == body[i]);
            } else {
                assert(s[i] == ' ');
            }
        }
        assert(s[k + 1] == comment[0]);
        text::lemma_run_is(s, semi, false, k + 1);
        assert(s.take(k + 1) =~= body + seq![' ']);
        assert(text::all_spec(seq![' '], CharClass::White));
        reread::lemma_rstrip_tail(body, seq![' ']);
        assert(s.skip(k + 1) =~= comment);
    }
    reread::lemma_rstrip_plain(body);
    assert(!CharClass::Gap.has(amt[0]));
    an_account_ends_at_a_gap(a, gap, amt);
}

// ---- directives ----

/// The argument of a directive is what follows its keyword, up to a comment.
pub proof fn a_directive_has_its_argument(
    keyword: Seq<char>,
    gap: Seq<char>,
    arg: Seq<char>,
    comment: Seq<char>,
)
    requires
        gap.len() > 0,
        text::all_spec(gap, CharClass::White),
        compact(arg),
        trim(arg),
        !arg.contains(';'),
        comment.len() == 0 || comment[0] == ';',
    ensures
        lex::directive_arg_spec(
            keyword + gap + arg + (if comment.len() == 0 {
                Seq::<char>::empty()
            } else {
                seq![' '] + comment
            }),
            keyword,
        ) == Some(arg),
{
    let tail = if comment.len() == 0 {
        Seq::<char>::empty()
    } else {
        seq![' '] + comment
    };
    let line = keyword + gap + arg + tail;
    let n = keyword.len() as int;
    assert(line.take(n) =~= keyword);
    assert(keyword.is_prefix_of(line));
    let rest = line.skip(n);
    let s = arg + tail;
    assert(rest =~= gap + s);
    assert(rest[0] == gap[0]);
    assert(CharClass::White.has(gap[0]));
    assert(s[0] == arg[0]);
    reread::lemma_lead_trimmed(gap, s);
    let semi = CharClass::Is(';');
    let k = arg.len() as int;
    assert forall|i: int| 0 <= i < k implies semi.has(#[trigger] arg[i]) == false by {
        assert(arg.contains(arg[i]));
    }
    if comment.len() == 0 {
        assert(s =~= arg);
        text::lemma_run_is(s, semi, false, k);
        reread::lemma_rstrip_plain(arg);
    } else {
        assert forall|i: int| 0 <= i < k + 1 implies semi.has(#[trigger] s[i]) == false by {
            if i < k {
                assert(s[i] == arg[i]);
            } else {
                assert(s[i] == ' ');
            }
        }
        assert(s[k + 1] == ';');
        text::lemma_run_is(s, semi, false, k + 1);
        assert(s.take(k + 1) =~= arg + seq![' ']);
        assert(text::all_spec(seq![' '], CharClass::White));
        reread::lemma_rstrip_tail(arg, seq![' ']);
    }
    let none = Seq::<char>::empty();
    lemma_gap_at(arg, none);
    assert(arg + none =~= arg);
    assert(arg.take(k) =~= arg);
    reread::lemma_rstrip_plain(arg);
}

// ---- amounts ----

/// The words of an amount: a number and its commodity, a number alone, or
/// anything else, which stays together; and behind it the cost or the assertion.
pub proof fn an_amount_is_its_parts(
    num: Seq<char>,
    name: Seq<char>,
    rest: Seq<Seq<char>>,
)
    requires
        lex::is_number_like_spec(num),
        !lex::is_rest_start_spec(num),
        name.len() > 0,
        !lex::is_rest_start_spec(name),
        !lex::is_digit_group_spec(name),
        !lex::is_number_like_spec(name),
        steady::starts_rest(rest),
    ensures
        lex::split_amount_spec(seq![num, name] + rest) == (num, name, rest),
        lex::split_amount_spec(seq![num] + rest) == (num, Seq::<char>::empty(), rest),
        lex::split_amount_spec(seq![name, num] + rest) == (
            name + " "@ + num,
            Seq::<char>::empty(),
            rest,
        ),
{
    lemma_cut(seq![num, name], rest);
    lemma_cut(seq![num], rest);
    lemma_cut(seq![name, num], rest);
    let a = seq![num, name];
    assert(a.skip(1) =~= seq![name]);
    assert(a.skip(1)[0] == name);
    assert(lex::groups_spec(a.skip(1)) == 0);
    assert(a.take(1) =~= seq![num]);
    assert(a.skip(2) + rest =~= rest);
    let b = seq![num];
    assert(b.skip(1) =~= Seq::empty());
    assert(lex::groups_spec(b.skip(1)) == 0);
    assert(b.take(1) =~= b);
    let c = seq![name, num];
    let front = c.drop_last();
    assert(front =~= seq![name]);
    assert(c.last() == num);
    assert(text::join_spec(front, " "@) == name);
    assert(text::join_spec(c, " "@) == name + " "@ + num);
}

proof fn lemma_cut(amt: Seq<Seq<char>>, rest: Seq<Seq<char>>)
    requires
        steady::loose(amt),
        steady::starts_rest(rest),
    ensures
        lex::rest_at_spec(amt + rest) == amt.len(),
        (amt + rest).take(amt.len() as int) == amt,
        (amt + rest).skip(amt.len() as int) == rest,
{
    steady::lemma_rest_at_is(amt, rest);
    assert((amt + rest).take(amt.len() as int) =~= amt);
    assert((amt + rest).skip(amt.len() as int) =~= rest);
}

/// Whether a text is a symbol: it holds nothing that a number could.
pub open spec fn symbol(s: Seq<char>) -> bool {
    s.len() > 0 && forall|i: int|
        0 <= i < s.len() ==> !CharClass::NumChar.has(#[trigger] s[i]) && !CharClass::Sign.has(s[i])
}

/// A symbol comes off the number that it is attached to, on either side of it,
/// and the sign stays with the number wherever it stands.
pub proof fn a_symbol_comes_off_its_number(sym: Seq<char>, w: Seq<char>)
    requires
        symbol(sym),
        digits(w),
    ensures
        amount::detach_spec(sym + w) == (w, sym),
        amount::detach_spec(w + sym) == (w, sym),
        amount::detach_spec(seq!['-'] + sym + w) == (seq!['-'] + w, sym),
        amount::detach_spec(sym + seq!['-'] + w) == (seq!['-'] + w, sym),
        amount::detach_spec(w) == (w, Seq::<char>::empty()),
{
    let none = Seq::<char>::empty();
    lemma_left(none, sym, none, w);
    assert(none + sym + none + w =~= sym + w);
    assert(none + none + w =~= w);
    lemma_left(seq!['-'], sym, none, w);
    assert(seq!['-'] + sym + none + w =~= seq!['-'] + sym + w);
    assert(seq!['-'] + none + w =~= seq!['-'] + w);
    lemma_left(none, sym, seq!['-'], w);
    assert(none + sym + seq!['-'] + w =~= sym + seq!['-'] + w);
    assert(none + seq!['-'] + w =~= seq!['-'] + w);
    lemma_right(w, sym);
    lemma_alone(w);
}

proof fn lemma_left(sign: Seq<char>, sym: Seq<char>, inner: Seq<char>, w: Seq<char>)
    requires
        shown::is_sign(sign),
        shown::is_sign(inner),
        symbol(sym),
        digits(w),
    ensures
        amount::detach_spec(sign + sym + inner + w) == (sign + inner + w, sym),
{
    let tok = sign + sym + inner + w;
    let n = sign.len() as int;
    let signs = CharClass::Sign;
    let nums = CharClass::NumChar;
    assert forall|i: int| 0 <= i < n implies signs.has(#[trigger] tok[i]) == true by {
        assert(tok[i] == sign[i]);
    }
    assert(tok[n] == sym[0]);
    assert(!signs.has(sym[0]));
    text::lemma_run_is(tok, signs, true, n);
    assert(tok.take(n) =~= sign);
    let body = tok.skip(n);
    assert(body =~= sym + inner + w);
    let lead = (sym.len() + inner.len()) as int;
    assert forall|i: int| 0 <= i < lead implies nums.has(#[trigger] body[i]) == false by {
        if i < sym.len() {
            assert(body[i] == sym[i]);
            assert(!nums.has(sym[i]));
        } else {
            assert(body[i] == inner[i - sym.len()]);
        }
    }
    assert(body[lead] == w[0]);
    assert(text::is_digit(w[0]));
    text::lemma_run_is(body, nums, false, lead);
    let front = body.take(lead);
    assert(front =~= sym + inner);
    assert forall|i: int| front.len() - inner.len() <= i < front.len() implies signs.has(
        #[trigger] front[i],
    ) == true by {
        assert(front[i] == inner[i - sym.len()]);
    }
    assert(front[front.len() - inner.len() - 1] == sym[sym.len() - 1]);
    assert(!signs.has(sym[sym.len() - 1]));
    text::lemma_run_back_is(front, signs, true, inner.len() as int);
    assert(front.take(sym.len() as int) =~= sym);
    assert(body.skip(sym.len() as int) =~= inner + w);
    assert(sign + (inner + w) =~= sign + inner + w);
}

proof fn lemma_right(w: Seq<char>, sym: Seq<char>)
    requires
        digits(w),
        symbol(sym),
    ensures
        amount::detach_spec(w + sym) == (w, sym),
{
    let tok = w + sym;
    let nums = CharClass::NumChar;
    assert(tok[0] == w[0]);
    assert(text::is_digit(w[0]));
    text::lemma_run_is(tok, CharClass::Sign, true, 0);
    assert(tok.skip(0) =~= tok);
    assert(tok.take(0) =~= Seq::<char>::empty());
    text::lemma_run_is(tok, nums, false, 0);
    assert forall|i: int| tok.len() - sym.len() <= i < tok.len() implies nums.has(#[trigger] tok[i])
        == false by {
        assert(tok[i] == sym[i - w.len()]);
        assert(!nums.has(sym[i - w.len()]));
    }
    assert(tok[tok.len() - sym.len() - 1] == w[w.len() - 1]);
    assert(text::is_digit(w[w.len() - 1]));
    text::lemma_run_back_is(tok, nums, false, sym.len() as int);
    assert(tok.take(w.len() as int) =~= w);
    assert(tok.skip(w.len() as int) =~= sym);
    assert(Seq::<char>::empty() + w =~= w);
}

proof fn lemma_alone(w: Seq<char>)
    requires
        digits(w),
    ensures
        amount::detach_spec(w) == (w, Seq::<char>::empty()),
{
    assert(text::is_digit(w[0]));
    assert(text::is_digit(w[w.len() - 1]));
    text::lemma_run_is(w, CharClass::Sign, true, 0);
    assert(w.skip(0) =~= w);
    text::lemma_run_is(w, CharClass::NumChar, false, 0);
    assert(w[w.len() - 0 - 1] == w[w.len() - 1]);
    text::lemma_run_back_is(w, CharClass::NumChar, false, 0);
}

/// An amount reads as it says: a number, a space and a commodity are that many of
/// the commodity, and contribute just that.
pub proof fn an_amount_reads_as_it_says(
    sign: Seq<char>,
    w: Seq<char>,
    mark: char,
    f: Seq<char>,
    name: Seq<char>,
    ctx: Ctx,
)
    requires
        shown::is_sign(sign),
        digits(w),
        digits(f),
        f.len() <= decimal::max_scale(),
        decimal::fits(text::digits_value(w + f) as int),
        mark == '.' || mark == ',',
        tokens::is_word(name),
        symbol(name),
        !lex::is_rest_start_spec(name),
        ctx.mark_for(name) is None || ctx.mark_for(name) == Some(mark),
    ensures
        ({
            let m = text::digits_value(w + f) as int;
            let value = Num {
                mantissa: if sign.len() > 0 {
                    -m
                } else {
                    m
                },
                scale: f.len(),
            };
            amount::parse_amount_spec(sign + w + seq![mark] + f + " "@ + name, ctx) == Some(
                amount::Parsed { value, commodity: name, contributes: (value, name) },
            )
        }),
{
    reveal_strlit(" ");
    let num = sign + w + seq![mark] + f;
    let field = num + " "@ + name;
    let none = Seq::<Seq<char>>::empty();
    shown::a_decimal_number_is_read_as_written(sign, w, mark, f, ctx.mark_for(name));
    assert(text::is_digit(w[0]));
    assert(num[sign.len() as int] == w[0]);
    assert(num[0] == '-' || num[0] == w[0]);
    assert(tokens::is_word(num)) by {
        assert forall|i: int| 0 <= i < num.len() implies !text::is_white(#[trigger] num[i]) by {
            if i < sign.len() {
                assert(num[i] == '-');
            } else if i < sign.len() + w.len() {
                assert(num[i] == w[i - sign.len()]);
                assert(text::is_digit(w[i - sign.len()]));
            } else if i > sign.len() + w.len() {
                assert(num[i] == f[i - sign.len() - w.len() - 1]);
                assert(text::is_digit(f[i - sign.len() - w.len() - 1]));
            }
        }
    }
    tokens::lemma_words_one(num);
    tokens::lemma_words_one(name);
    tokens::lemma_words_white(" "@);
    tokens::lemma_words_concat(num + " "@, name);
    tokens::lemma_words_concat(num, " "@);
    assert(text::words_spec(field) =~= seq![num, name] + none);
    assert(lex::is_number_like_spec(num)) by {
        assert(CharClass::Digit.has(num[sign.len() as int]));
    }
    assert(!CharClass::NumChar.has(name[0]) && !CharClass::Sign.has(name[0]));
    an_amount_is_its_parts(num, name, none);
}

// ---- comment blocks ----

/// A `comment` block ends with the first line that closes it, whatever stands
/// before that; one that nothing closes runs to the end.
pub proof fn a_comment_block_ends_at_its_first_closer(ls: Seq<Seq<char>>, k: int)
    requires
        0 <= k <= ls.len(),
        forall|i: int| 0 <= i < k ==> !lex::closes_block_spec(#[trigger] ls[i]),
        k < ls.len() ==> lex::closes_block_spec(ls[k]),
    ensures
        lex::block_len_spec(ls) == (if k < ls.len() {
            k + 1
        } else {
            k
        }),
    decreases ls.len(),
{
    if ls.len() > 0 && k > 0 {
        let more = ls.skip(1);
        assert(!lex::closes_block_spec(ls[0]));
        assert forall|i: int| 0 <= i < k - 1 implies !lex::closes_block_spec(
            #[trigger] more[i],
        ) by {
            assert(more[i] == ls[i + 1]);
        }
        if k < ls.len() {
            assert(more[k - 1] == ls[k]);
        }
        a_comment_block_ends_at_its_first_closer(more, k - 1);
    }
}

// ---- costs ----

/// The commodities in the tail of an amount are those that some of its tokens
/// name, each once.
pub proof fn a_tail_names_each_commodity_once(toks: Seq<Seq<char>>)
    ensures
        amount::tail_symbols_spec(toks).no_duplicates(),
        forall|x: Seq<char>| #[trigger]
            amount::tail_symbols_spec(toks).contains(x) <==> exists|i: int|
                0 <= i < toks.len() && amount::tail_symbol_spec(#[trigger] toks[i]) == Some(x),
    decreases toks.len(),
{
    let all = amount::tail_symbols_spec(toks);
    if toks.len() > 0 {
        let f = toks.drop_last();
        let n = toks.len() - 1;
        a_tail_names_each_commodity_once(f);
        let before = amount::tail_symbols_spec(f);
        assert forall|x: Seq<char>| #[trigger] all.contains(x) <==> exists|i: int|
            0 <= i < toks.len() && amount::tail_symbol_spec(#[trigger] toks[i]) == Some(x) by {
            assert(before.contains(x) <==> exists|i: int|
                0 <= i < f.len() && amount::tail_symbol_spec(#[trigger] f[i]) == Some(x));
            if all.contains(x) {
                let k = choose|k: int| 0 <= k < all.len() && all[k] == x;
                if k < before.len() {
                    assert(before[k] == x);
                    assert(before.contains(x));
                    let i = choose|i: int|
                        0 <= i < f.len() && amount::tail_symbol_spec(#[trigger] f[i]) == Some(x);
                    assert(toks[i] == f[i]);
                } else {
                    assert(amount::tail_symbol_spec(toks[n]) == Some(x));
                }
            }
            if exists|i: int|
                0 <= i < toks.len() && amount::tail_symbol_spec(#[trigger] toks[i]) == Some(x) {
                let i = choose|i: int|
                    0 <= i < toks.len() && amount::tail_symbol_spec(#[trigger] toks[i]) == Some(x);
                if i < n {
                    assert(f[i] == toks[i]);
                    assert(before.contains(x));
                    let k = choose|k: int| 0 <= k < before.len() && before[k] == x;
                    assert(all[k] == x);
                } else if !before.contains(x) {
                    assert(all[all.len() - 1] == x);
                } else {
                    assert(all == before);
                }
            }
        }
    } else {
        assert forall|x: Seq<char>| !(#[trigger] all.contains(x)) by {}
    }
}

// ---- kinds of lines ----

/// A line is what its first character says: a comment, a transaction, or, where
/// that is white space and something follows, part of what stands above it.
pub proof fn a_line_is_what_its_first_character_says(c: char, rest: Seq<char>)
    ensures
        lex::is_comment_spec(seq![c] + rest) == (c == ';' || c == '#' || c == '*'),
        lex::opens_txn_spec(seq![c] + rest) == ('0' <= c && c <= '9'),
        lex::opens_rule_spec(seq![c] + rest) == (c == '~' || c == '='),
        lex::is_indented_spec(seq![c] + rest) ==> text::is_white(c),
        text::is_white(c) && trim(rest) ==> lex::is_indented_spec(seq![c] + rest),
        !lex::is_comment_spec(Seq::empty()) && !lex::opens_txn_spec(Seq::empty())
            && !lex::is_indented_spec(Seq::empty()),
{
    let s = seq![c] + rest;
    assert(s[0] == c);
    if trim(rest) && lex::is_blank_spec(s) {
        assert(s[1] == rest[0]);
        assert(text::is_white(s[1]));
    }
}

/// A `comment` block is opened and closed by its keyword alone on a line, at the
/// start of the line; white space behind it does no harm.
pub proof fn a_block_is_opened_by_its_keyword_alone(s: Seq<char>, white: Seq<char>)
    requires
        text::all_spec(white, CharClass::White),
    ensures
        lex::opens_block_spec("comment"@ + white),
        lex::closes_block_spec("end comment"@ + white),
        lex::opens_block_spec(s) ==> "comment"@.is_prefix_of(s) && text::all_spec(
            s.skip(7),
            CharClass::White,
        ),
        lex::closes_block_spec(s) ==> "end comment"@.is_prefix_of(s) && text::all_spec(
            s.skip(11),
            CharClass::White,
        ),
{
    reveal_strlit("comment");
    reveal_strlit("end comment");
    reread::lemma_rstrip_tail("comment"@, white);
    reread::lemma_rstrip_tail("end comment"@, white);
    reread::lemma_rstrip(s);
    text::lemma_run_back(s, CharClass::White, true);
    let r = lex::rstrip_spec(s);
    let n = r.len() as int;
    assert forall|i: int| 0 <= i < s.skip(n).len() implies CharClass::White.has(
        #[trigger] s.skip(n)[i],
    ) by {
        assert(s.skip(n)[i] == s[n + i]);
    }
}

/// A tail begins with an operator: one or two `@` for a cost, and for an
/// assertion one or two `=` with or without a `*`. What is attached to it is no
/// part of it.
pub proof fn a_tail_begins_with_its_operator(rest: Seq<char>)
    requires
        rest.len() == 0 || rest[0] != '=' && rest[0] != '*' && rest[0] != '@',
    ensures
        amount::op_len_spec("@"@ + rest) == 1,
        amount::op_len_spec("@@"@ + rest) == 2,
        amount::op_len_spec("="@ + rest) == 1,
        amount::op_len_spec("=="@ + rest) == 2,
        amount::op_len_spec("=*"@ + rest) == 2,
        amount::op_len_spec("==*"@ + rest) == 3,
        amount::op_len_spec(rest) == 0,
{
    reveal_strlit("@");
    reveal_strlit("@@");
    reveal_strlit("=");
    reveal_strlit("==");
    reveal_strlit("=*");
    reveal_strlit("==*");
    let a = "@"@ + rest;
    let b = "="@ + rest;
    let c = "=="@ + rest;
    if rest.len() > 0 {
        assert(a[1] == rest[0]);
        assert(b[1] == rest[0]);
        assert(c[2] == rest[0]);
    }
    assert(("@@"@ + rest)[1] == '@');
    assert(c[1] == '=');
    assert(("=*"@ + rest)[1] == '*');
    assert(("==*"@ + rest)[1] == '=');
    assert(("==*"@ + rest)[2] == '*');
}

} // verus!
