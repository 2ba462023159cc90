//! What a laid-out posting line reads as.
//!
//! Laying a posting out and reading the line again gives the same account,
//! comment and amount tokens back, whatever the columns are.

use vstd::prelude::*;
use crate::fmt::posting::{self, Post};
use crate::lex;
use crate::text::{self, CharClass};
use crate::tokens;

verus! {

// ---- gaps and trimming ----

/// Where the first gap stands: no two neighbours before it are gap characters,
/// and the two there are.
pub proof fn lemma_gap(s: Seq<char>)
    ensures
        0 <= lex::gap_spec(s) <= s.len(),
        forall|i: int|
            0 <= i < lex::gap_spec(s) && i + 1 < s.len() ==> !(CharClass::Gap.has(
                #[trigger] s[i],
            ) && CharClass::Gap.has(s[i + 1])),
        lex::gap_spec(s) < s.len() ==> lex::gap_spec(s) + 1 < s.len() && CharClass::Gap.has(
            s[lex::gap_spec(s)],
        ) && CharClass::Gap.has(s[lex::gap_spec(s) + 1]),
    decreases s.len(),
{
    if s.len() >= 2 && !(CharClass::Gap.has(s[0]) && CharClass::Gap.has(s[1])) {
        let t = s.skip(1);
        lemma_gap(t);
        let n = lex::gap_spec(t);
        assert forall|i: int| 0 <= i < n + 1 && i + 1 < s.len() implies !(CharClass::Gap.has(
            #[trigger] s[i],
        ) && CharClass::Gap.has(s[i + 1])) by {
            if i > 0 {
                assert(t[i - 1] == s[i]);
                assert(t[i] == s[i + 1]);
            }
        }
        if n + 1 < s.len() {
            assert(t[n] == s[n + 1]);
            assert(t[n + 1] == s[n + 2]);
        }
    }
}

/// A position with two gap characters and no such position before it is the
/// first gap.
pub proof fn lemma_gap_is(s: Seq<char>, n: int)
    requires
        0 <= n,
        n + 1 < s.len(),
        CharClass::Gap.has(s[n]),
        CharClass::Gap.has(s[n + 1]),
        forall|i: int|
            0 <= i < n ==> !(CharClass::Gap.has(#[trigger] s[i]) && CharClass::Gap.has(s[i + 1])),
    ensures
        lex::gap_spec(s) == n,
{
    lemma_gap(s);
    let m = lex::gap_spec(s);
    if m < n {
        assert(CharClass::Gap.has(s[m]));
    }
    if n < m {
        assert(!(CharClass::Gap.has(s[n]) && CharClass::Gap.has(s[n + 1])));
    }
}

/// A text that ends in no white space is stripped as it is.
pub proof fn lemma_rstrip_plain(s: Seq<char>)
    requires
        s.len() == 0 || !text::is_white(s.last()),
    ensures
        lex::rstrip_spec(s) == s,
{
    if s.len() > 0 {
        assert(s[s.len() - 0 - 1] == s.last());
    }
    text::lemma_run_back_is(s, CharClass::White, true, 0);
    assert(s.take(s.len() as int) =~= s);
}

/// White space behind a text that ends in none is stripped.
pub proof fn lemma_rstrip_tail(s: Seq<char>, w: Seq<char>)
    requires
        s.len() == 0 || !text::is_white(s.last()),
        text::all_spec(w, CharClass::White),
    ensures
        lex::rstrip_spec(s + w) == s,
{
    let t = s + w;
    assert forall|i: int| t.len() - w.len() <= i < t.len() implies CharClass::White.has(
        #[trigger] t[i],
    ) == true by {
        assert(t[i] == w[i - s.len()]);
    }
    if s.len() > 0 {
        assert(t[t.len() - w.len() - 1] == s.last());
    }
    text::lemma_run_back_is(t, CharClass::White, true, w.len() as int);
    assert(t.take(t.len() - w.len()) =~= s);
}

/// White space before a text that starts with none is trimmed.
pub proof fn lemma_lead_trimmed(w: Seq<char>, s: Seq<char>)
    requires
        text::all_spec(w, CharClass::White),
        s.len() == 0 || !text::is_white(s[0]),
    ensures
        text::trim_start_spec(w + s, CharClass::White) == s,
{
    let t = w + s;
    assert forall|i: int| 0 <= i < w.len() implies CharClass::White.has(#[trigger] t[i])
        == true by {
        assert(t[i] == w[i]);
    }
    if s.len() > 0 {
        assert(t[w.len() as int] == s[0]);
    }
    text::lemma_run_is(t, CharClass::White, true, w.len() as int);
    assert(t.skip(w.len() as int) =~= s);
}

/// What stripping leaves: a prefix that ends in no white space.
pub proof fn lemma_rstrip(s: Seq<char>)
    ensures
        lex::rstrip_spec(s).is_prefix_of(s),
        lex::rstrip_spec(s).len() == 0 || !text::is_white(lex::rstrip_spec(s).last()),
        lex::rstrip_spec(lex::rstrip_spec(s)) == lex::rstrip_spec(s),
        lex::is_blank_spec(s) == (lex::rstrip_spec(s).len() == 0),
{
    text::lemma_run_back(s, CharClass::White, true);
    let n = text::run_back_spec(s, CharClass::White, true);
    let r = lex::rstrip_spec(s);
    assert(r =~= s.take(s.len() - n));
    if r.len() > 0 {
        assert(r.last() == s[s.len() - n - 1]);
        if lex::is_blank_spec(s) {
            assert(text::is_white(s[s.len() - n - 1]));
        }
    } else {
        assert forall|i: int| 0 <= i < s.len() implies text::is_white(#[trigger] s[i]) by {
            assert(CharClass::White.has(s[i]) == true);
        }
    }
    lemma_rstrip_plain(r);
}

/// What is left once white space is trimmed off the start.
pub proof fn lemma_trim_start(s: Seq<char>)
    ensures
        text::trim_start_spec(s, CharClass::White).len() == 0 || !text::is_white(
            text::trim_start_spec(s, CharClass::White)[0],
        ),
        lex::is_blank_spec(s) == (text::trim_start_spec(s, CharClass::White).len() == 0),
        exists|n: int|
            0 <= n <= s.len() && #[trigger] s.skip(n) == text::trim_start_spec(
                s,
                CharClass::White,
            ),
{
    text::lemma_run(s, CharClass::White, true);
    let n = text::run_spec(s, CharClass::White, true);
    let t = text::trim_start_spec(s, CharClass::White);
    assert(s.skip(n) == t);
    if t.len() > 0 {
        assert(t[0] == s[n]);
        if lex::is_blank_spec(s) {
            assert(text::is_white(s[n]));
        }
    } else {
        assert forall|i: int| 0 <= i < s.len() implies text::is_white(#[trigger] s[i]) by {
            assert(CharClass::White.has(s[i]) == true);
        }
    }
}

/// Spaces are white space.
pub proof fn lemma_spaces(n: nat)
    ensures
        text::all_spec(text::repeat_spec(' ', n), CharClass::White),
{
}

// ---- what can be read back ----

/// Whether an account name can be read back: it has no gap in it, nor a
/// comment, nor white space at its start.
pub open spec fn plain_account(a: Seq<char>) -> bool {
    &&& a.len() > 0
    &&& !text::is_white(a[0])
    &&& !a.contains(';')
    &&& lex::gap_spec(a) == a.len()
    &&& !CharClass::Gap.has(a.last())
}

/// Whether a text is a comment that ends in no white space.
pub open spec fn plain_comment(c: Seq<char>) -> bool {
    c.len() > 0 && c[0] == ';' && !text::is_white(c.last())
}

/// The tokens of an amount.
pub open spec fn amount_words(num: Seq<char>, commodity: Seq<char>, rest: Seq<Seq<char>>) -> Seq<
    Seq<char>,
> {
    text::words_spec(num) + (if commodity.len() == 0 {
        Seq::<Seq<char>>::empty()
    } else {
        seq![commodity]
    }) + rest
}

/// Whether the tokens of an amount can be read back.
pub open spec fn plain_amount(num: Seq<char>, commodity: Seq<char>, rest: Seq<Seq<char>>) -> bool {
    &&& num.len() > 0 ==> !text::is_white(num[0]) && !text::is_white(num.last())
    &&& num.len() == 0 ==> commodity.len() == 0
    &&& commodity.len() > 0 ==> tokens::is_word(commodity)
    &&& tokens::all_words(rest)
    &&& amount_words(num, commodity, rest).len() > 0
    &&& !num.contains(';')
    &&& !commodity.contains(';')
    &&& forall|i: int| 0 <= i < rest.len() ==> !(#[trigger] rest[i]).contains(';')
}

/// Whether a posting can be read back from how it is laid out.
pub open spec fn plain_post(p: Post) -> bool {
    match p {
        Post::Comment(c) => plain_comment(c),
        Post::Bare(account, comment) => {
            &&& plain_account(account)
            &&& !text::is_white(account.last())
            &&& comment matches Some(c) ==> plain_comment(c)
        },
        Post::Amount { account, num, commodity, rest, comment } => {
            &&& plain_account(account)
            &&& plain_amount(num, commodity, rest)
            &&& comment matches Some(c) ==> plain_comment(c)
        },
    }
}

/// A posting as it reads once it is laid out: its tokens stay, and fall apart
/// into number, commodity and tail as they do.
pub open spec fn reread(p: Post) -> Post {
    match p {
        Post::Amount { account, num, commodity, rest, comment } => {
            let (n, c, r) = lex::split_amount_spec(amount_words(num, commodity, rest));
            Post::Amount { account, num: n, commodity: c, rest: r, comment }
        },
        other => other,
    }
}

// ---- laying out and reading ----

/// A body and a comment two spaces behind it come apart again.
proof fn lemma_body_and_comment(body: Seq<char>, comment: Option<Seq<char>>)
    requires
        body.len() > 0,
        !text::is_white(body[0]),
        !text::is_white(body.last()),
        !body.contains(';'),
        comment matches Some(c) ==> plain_comment(c),
    ensures
        ({
            let line = "    "@ + body + posting::comment_part_spec(comment);
            let s = lex::rstrip_spec(text::trim_start_spec(line, CharClass::White));
            &&& s.len() > 0
            &&& s[0] == body[0]
            &&& lex::split_comment_spec(s) == (body, comment)
        }),
{
    reveal_strlit("    ");
    reveal_strlit("  ");
    let part = posting::comment_part_spec(comment);
    let line = "    "@ + body + part;
    let x = body + part;
    assert(line =~= "    "@ + x);
    lemma_lead_trimmed("    "@, x);
    match comment {
        None => {
            assert(x =~= body);
            lemma_rstrip_plain(x);
            assert forall|i: int| 0 <= i < x.len() implies CharClass::Is(';').has(#[trigger] x[i])
                == false by {
                assert(body.contains(body[i]));
            }
            text::lemma_run_is(x, CharClass::Is(';'), false, x.len() as int);
        },
        Some(c) => {
            assert(x.last() == c.last());
            lemma_rstrip_plain(x);
            let n = body.len() + 2;
            assert forall|i: int| 0 <= i < n implies CharClass::Is(';').has(#[trigger] x[i])
                == false by {
                if i < body.len() {
                    assert(x[i] == body[i]);
                    assert(body.contains(body[i]));
                }
            }
            assert(x[n as int] == c[0]);
            text::lemma_run_is(x, CharClass::Is(';'), false, n as int);
            assert(x.take(n as int) =~= body + "  "@);
            assert(text::all_spec("  "@, CharClass::White));
            lemma_rstrip_tail(body, "  "@);
            assert(x.skip(n as int) =~= c);
        },
    }
}

/// The amount column and the tail behind it.
pub open spec fn amount_text(num_w: nat, num: Seq<char>, commodity: Seq<char>, rest: Seq<Seq<char>>) -> Seq<
    char,
> {
    posting::amount_field_spec(num_w, num, commodity, rest) + (if rest.len() == 0 {
        Seq::<char>::empty()
    } else {
        " "@ + text::join_spec(rest, " "@)
    })
}

/// The amount column holds the tokens, and ends in no white space.
proof fn lemma_amount_text(num_w: nat, num: Seq<char>, commodity: Seq<char>, rest: Seq<Seq<char>>)
    requires
        plain_amount(num, commodity, rest),
    ensures
        text::words_spec(amount_text(num_w, num, commodity, rest)) == amount_words(
            num,
            commodity,
            rest,
        ),
        amount_text(num_w, num, commodity, rest).len() > 0,
        !text::is_white(amount_text(num_w, num, commodity, rest).last()),
        !amount_text(num_w, num, commodity, rest).contains(';'),
{
    reveal_strlit(" ");
    let none = Seq::<Seq<char>>::empty();
    let field = posting::amount_field_spec(num_w, num, commodity, rest);
    let tail = if rest.len() == 0 {
        Seq::<char>::empty()
    } else {
        " "@ + text::join_spec(rest, " "@)
    };
    let whole = amount_text(num_w, num, commodity, rest);
    assert(whole == field + tail);
    lemma_spaces(num_w);
    // The column.
    if num.len() == 0 {
        let w = text::words_spec(num);
        tokens::lemma_words_white(num);
        assert(commodity.len() == 0);
        assert(amount_words(num, commodity, rest) =~= rest);
        assert forall|i: int| 0 <= i < field.len() implies CharClass::White.has(
            #[trigger] field[i],
        ) by {}
        tokens::lemma_words_white(field);
        assert(!field.contains(';'));
    } else {
        let padded = posting::pad_left_spec(num, num_w);
        let lead = if num.len() < num_w {
            text::repeat_spec(' ', (num_w - num.len()) as nat)
        } else {
            Seq::<char>::empty()
        };
        assert(padded =~= lead + num);
        assert(text::all_spec(lead, CharClass::White));
        tokens::lemma_words_white(lead);
        if lead.len() > 0 {
            assert(text::is_white(lead.last()));
        }
        tokens::lemma_words_concat(lead, num);
        assert(none + text::words_spec(num) =~= text::words_spec(num));
        if padded.contains(';') {
            let i = choose|i: int| 0 <= i < padded.len() && padded[i] == ';';
            if i >= lead.len() {
                assert(num[i - lead.len()] == ';');
                assert(num.contains(';'));
            }
        }
        if commodity.len() > 0 {
            tokens::lemma_words_one(commodity);
            tokens::lemma_words_white(" "@);
            tokens::lemma_words_concat(" "@, commodity);
            assert(none + seq![commodity] =~= seq![commodity]);
            tokens::lemma_words_concat(padded, " "@ + commodity);
            assert(field =~= padded + (" "@ + commodity));
            if field.contains(';') {
                let i = choose|i: int| 0 <= i < field.len() && field[i] == ';';
                if i < padded.len() {
                    assert(padded[i] == ';');
                    assert(padded.contains(';'));
                } else if i > padded.len() {
                    assert(commodity[i - padded.len() - 1] == ';');
                    assert(commodity.contains(';'));
                }
            }
        } else {
            assert(field =~= padded);
        }
        assert(text::words_spec(field) + rest =~= amount_words(num, commodity, rest));
    }
    // The tail.
    if rest.len() > 0 {
        let j = text::join_spec(rest, " "@);
        tokens::lemma_words_join(rest);
        tokens::lemma_words_white(" "@);
        tokens::lemma_words_concat(" "@, j);
        assert(none + rest =~= rest);
        tokens::lemma_words_concat(field, tail);
        tokens::lemma_join_ends(rest);
        assert(tokens::is_word(rest[rest.len() - 1]));
        assert(whole.last() == j.last());
        tokens::lemma_join_chars(rest, ';');
        if whole.contains(';') {
            let i = choose|i: int| 0 <= i < whole.len() && whole[i] == ';';
            if i < field.len() {
                assert(field[i] == ';');
                assert(field.contains(';'));
            } else if i > field.len() {
                assert(j[i - field.len() - 1] == ';');
                assert(j.contains(';'));
            }
        }
        if num.len() == 0 {
            assert(none + rest =~= rest);
        }
    } else {
        assert(whole =~= field);
        assert(num.len() > 0) by {
            if num.len() == 0 {
                tokens::lemma_words_white(num);
                assert(amount_words(num, commodity, rest) =~= none);
            }
        }
        assert(text::words_spec(field) + rest =~= text::words_spec(field));
        if commodity.len() > 0 {
            assert(whole.last() == commodity.last());
        } else {
            assert(whole.last() == num.last());
        }
    }
}

/// A posting that is laid out and read again is the posting it was, with the
/// same account and comment and the same amount tokens, in whatever columns.
#[verifier::rlimit(60)]
pub proof fn lemma_laid_out(acc_w: nat, num_w: nat, p: Post)
    requires
        plain_post(p),
    ensures
        posting::parse_posting_spec(posting::render_spec(acc_w, num_w, p)) == reread(p),
{
    reveal_strlit("    ");
    reveal_strlit("  ");
    let line = posting::render_spec(acc_w, num_w, p);
    match p {
        Post::Comment(c) => {
            assert(text::all_spec("    "@, CharClass::White));
            lemma_lead_trimmed("    "@, c);
            lemma_rstrip_plain(c);
        },
        Post::Bare(account, comment) => {
            lemma_body_and_comment(account, comment);
            assert(account.take(account.len() as int) =~= account);
            let none = account.skip(account.len() as int);
            text::lemma_run(none, CharClass::Gap, true);
            assert(account.contains(account[0]));
        },
        Post::Amount { account, num, commodity, rest, comment } => {
            let field = amount_text(num_w, num, commodity, rest);
            lemma_amount_text(num_w, num, commodity, rest);
            let gap = (if account.len() < acc_w {
                text::repeat_spec(' ', (acc_w - account.len()) as nat)
            } else {
                Seq::<char>::empty()
            }) + "  "@;
            let body = account + gap + field;
            assert(line =~= "    "@ + body + posting::comment_part_spec(comment));
            assert(body[0] == account[0]);
            assert(body.last() == field.last());
            assert(account.contains(account[0]));
            if body.contains(';') {
                let i = choose|i: int| 0 <= i < body.len() && body[i] == ';';
                if i < account.len() {
                    assert(account[i] == ';');
                    assert(account.contains(';'));
                } else if i >= account.len() + gap.len() {
                    assert(field[i - account.len() - gap.len()] == ';');
                    assert(field.contains(';'));
                }
            }
            lemma_body_and_comment(body, comment);
            // The account ends where the gap starts.
            let n = account.len() as int;
            lemma_gap(account);
            assert forall|i: int| 0 <= i < n implies !(CharClass::Gap.has(#[trigger] body[i])
                && CharClass::Gap.has(body[i + 1])) by {
                assert(body[i] == account[i]);
                if i + 1 < n {
                    assert(body[i + 1] == account[i + 1]);
                } else {
                    assert(account.last() == account[i]);
                }
            }
            assert(body[n] == gap[0] && body[n + 1] == gap[1]);
            lemma_gap_is(body, n);
            assert(body.take(n) =~= account);
            let after = gap + field;
            assert(body.skip(n) =~= after);
            let k = text::run_spec(after, CharClass::Gap, true);
            text::lemma_run(after, CharClass::Gap, true);
            let amt = after.skip(k);
            let lead = after.take(k);
            assert(after =~= lead + amt);
            assert forall|i: int| 0 <= i < lead.len() implies CharClass::White.has(
                #[trigger] lead[i],
            ) by {
                assert(CharClass::Gap.has(after[i]));
            }
            tokens::lemma_words_white(lead);
            if lead.len() > 0 {
                assert(CharClass::White.has(lead[lead.len() - 1]));
            }
            tokens::lemma_words_concat(lead, amt);
            assert(text::all_spec(gap, CharClass::White));
            tokens::lemma_words_white(gap);
            assert(text::is_white(gap.last()));
            tokens::lemma_words_concat(gap, field);
            let none = Seq::<Seq<char>>::empty();
            assert(none + text::words_spec(amt) =~= text::words_spec(amt));
            assert(none + text::words_spec(field) =~= text::words_spec(field));
            if amt.len() == 0 {
                tokens::lemma_words_white(amt);
            }
        },
    }
}

} // verus!
