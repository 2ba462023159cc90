//! What is recorded of a session is what is read back.

use vstd::prelude::*;
use crate::add::filemap::{self, Span};
use crate::add::parser;
use crate::add::recovery;
use crate::add::scope::Rewrites;
use crate::add::write::{NewPost, NewTxn};
use crate::date::{self, Day};
use crate::decimal;
use crate::fmt;
use crate::fmt::laws;
use crate::fmt::posting::{self, Post};
use crate::fmt::reread;
use crate::fmt::settle;
use crate::lex;
use crate::numerals;
use crate::restyle;
use crate::text::{self, CharClass};
use crate::tokens;

verus! {

// ---- what can be read back ----

/// Whether a text neither begins nor ends in white space and keeps to its line.
pub open spec fn trimmed(s: Seq<char>) -> bool {
    &&& !s.contains('\n')
    &&& s.len() > 0 ==> !text::is_white(s[0]) && !text::is_white(s.last())
}

/// Whether a comment is written behind a `;` of its own.
pub open spec fn plain_note(c: Seq<char>) -> bool {
    trimmed(c) && (c.len() > 0 ==> c[0] != ';')
}

/// Whether an amount is written in tokens a single space apart, of which the
/// first begins no cost or assertion.
pub open spec fn plain_figure(a: Seq<char>) -> bool {
    &&& a == text::join_spec(text::words_spec(a), " "@)
    &&& !a.contains(';')
    &&& !a.contains('\n')
    &&& a.len() > 0 ==> !lex::is_rest_start_spec(a)
}

/// Whether a posting can be told from its line.
pub open spec fn plain_entry(p: NewPost) -> bool {
    &&& trimmed(p.account)
    &&& reread::plain_account(p.account)
    &&& plain_figure(p.amount)
    &&& plain_note(p.comment)
}

/// Whether a transaction can be told from its lines.
pub open spec fn plain_txn(t: NewTxn) -> bool {
    &&& t.date.is_real()
    &&& 0 <= t.date.year <= 9999
    &&& trimmed(t.description)
    &&& !t.description.contains(';')
    &&& plain_note(t.comment)
    &&& forall|i: int| 0 <= i < t.postings.len() ==> plain_entry(#[trigger] t.postings[i])
}

// ---- dates ----

proof fn lemma_zeros(n: nat)
    ensures
        text::all_digits(text::repeat_spec('0', n)),
        text::digits_value(text::repeat_spec('0', n)) == 0,
    decreases n,
{
    if n > 0 {
        lemma_zeros((n - 1) as nat);
        assert(text::repeat_spec('0', n).drop_last() =~= text::repeat_spec('0', (n - 1) as nat));
    }
}

pub proof fn lemma_padded(n: nat, width: nat)
    ensures
        date::padded(n, width).len() > 0,
        text::all_digits(date::padded(n, width)),
        text::digits_value(date::padded(n, width)) == n,
{
    numerals::lemma_digits(n);
    let d = text::digits_spec(n);
    if d.len() < width {
        let z = text::repeat_spec('0', (width - d.len()) as nat);
        lemma_zeros((width - d.len()) as nat);
        numerals::lemma_digits_concat(z, d);
        let p = decimal::pow10(d.len());
        assert(0 * p == 0);
        let all = z + d;
        assert forall|i: int| 0 <= i < all.len() implies text::is_digit(#[trigger] all[i]) by {
            if i < z.len() {
                assert(all[i] == z[i]);
            } else {
                assert(all[i] == d[i - z.len()]);
            }
        }
    }
}

/// Digits are the number they write.
proof fn lemma_digits_read(s: Seq<char>)
    requires
        s.len() > 0,
        text::all_digits(s),
    ensures
        text::whole_number(s) == Some(text::digits_value(s) as int),
        s[0] != '-',
{
    assert(text::is_digit(s[0]));
}

/// A date that is written is read as that date.
pub proof fn lemma_date_back(day: Day, year: int)
    requires
        day.is_real(),
        0 <= day.year <= 9999,
    ensures
        ({
            let t = day.text();
            &&& date::parse_date_spec(t, year) == Some(day)
            &&& tokens::is_word(t)
            &&& text::is_digit(t[0])
            &&& !t.contains(';')
            &&& !t.contains('\n')
        }),
{
    let t = day.text();
    let y = date::padded(day.year as nat, 4);
    let m = date::padded(day.month as nat, 2);
    let d = date::padded(day.day as nat, 2);
    lemma_padded(day.year as nat, 4);
    lemma_padded(day.month as nat, 2);
    lemma_padded(day.day as nat, 2);
    lemma_digits_read(y);
    lemma_digits_read(m);
    lemma_digits_read(d);
    let dash = seq!['-'];
    let md = m + dash + d;
    assert(t =~= y + (dash + md));
    assert forall|i: int| 0 <= i < t.len() implies text::is_digit(#[trigger] t[i]) || t[i]
        == '-' by {
        if i < y.len() {
            assert(t[i] == y[i]);
        } else if i > y.len() && i < y.len() + 1 + m.len() {
            assert(t[i] == m[i - y.len() - 1]);
        } else if i > y.len() + 1 + m.len() {
            assert(t[i] == d[i - y.len() - m.len() - 2]);
        }
    }
    assert(text::is_digit(y[0]));
    assert(t[0] == y[0]);
    // Not split at `=`.
    text::lemma_run_is(t, CharClass::Is('='), false, t.len() as int);
    assert(text::split_spec(t, CharClass::Is('=')) =~= seq![t]);
    // Split at the dashes.
    let sep = CharClass::DateSep;
    assert forall|i: int| 0 <= i < y.len() implies sep.has(#[trigger] t[i]) == false by {
        assert(t[i] == y[i]);
    }
    assert(t[y.len() as int] == '-');
    text::lemma_run_is(t, sep, false, y.len() as int);
    assert(t.take(y.len() as int) =~= y);
    assert(t.skip(y.len() as int + 1) =~= md);
    assert forall|i: int| 0 <= i < m.len() implies sep.has(#[trigger] md[i]) == false by {
        assert(md[i] == m[i]);
    }
    assert(md[m.len() as int] == '-');
    text::lemma_run_is(md, sep, false, m.len() as int);
    assert(md.take(m.len() as int) =~= m);
    assert(md.skip(m.len() as int + 1) =~= d);
    assert forall|i: int| 0 <= i < d.len() implies sep.has(#[trigger] d[i]) == false by {}
    text::lemma_run_is(d, sep, false, d.len() as int);
    assert(text::split_spec(d, sep) =~= seq![d]);
    assert(text::split_spec(md, sep) =~= seq![m, d]);
    assert(text::split_spec(t, sep) =~= seq![y, m, d]);
    assert forall|i: int| 0 <= i < t.len() implies !text::is_white(#[trigger] t[i]) by {
        assert(text::is_digit(t[i]) || t[i] == '-');
    }
    if t.contains(';') {
        let i = choose|i: int| 0 <= i < t.len() && t[i] == ';';
        assert(text::is_digit(t[i]) || t[i] == '-');
    }
    if t.contains('\n') {
        let i = choose|i: int| 0 <= i < t.len() && t[i] == '\n';
        assert(text::is_digit(t[i]) || t[i] == '-');
    }
}

// ---- comments ----

/// A comment as it stands behind a line.
pub open spec fn noted(c: Seq<char>) -> Option<Seq<char>> {
    if c.len() == 0 {
        None
    } else {
        Some("; "@ + c)
    }
}

/// A text that is trimmed already.
proof fn lemma_trim_plain(s: Seq<char>)
    requires
        trimmed(s),
    ensures
        text::trim_spec(s, CharClass::White) == s,
{
    text::lemma_run_is(s, CharClass::White, true, 0);
    assert(s.skip(0) =~= s);
    if s.len() > 0 {
        assert(s[s.len() - 0 - 1] == s.last());
    }
    text::lemma_run_back_is(s, CharClass::White, true, 0);
    assert(s.take(s.len() as int) =~= s);
}

proof fn lemma_note(c: Seq<char>)
    requires
        plain_note(c),
    ensures
        crate::add::write::comment_suffix_spec(c) == posting::comment_part_spec(noted(c)),
        crate::add::write::comment_text_spec(noted(c)) == c,
        noted(c) matches Some(n) ==> reread::plain_comment(n),
{
    reveal_strlit("  ");
    reveal_strlit("; ");
    reveal_strlit("  ; ");
    lemma_trim_plain(c);
    if c.len() > 0 {
        let n = "; "@ + c;
        assert("  ; "@ + c =~= "  "@ + n);
        assert(n.last() == c.last());
        text::lemma_run_is(n, CharClass::White, true, 0);
        assert(n.skip(0) =~= n);
        assert(n[1] == ' ');
        text::lemma_run_is(n, CharClass::Is(';'), true, 1);
        let s = n.skip(1);
        assert(s =~= seq![' '] + c);
        assert(s[1] == c[0]);
        text::lemma_run_is(s, CharClass::White, true, 1);
        assert(s.skip(1) =~= c);
        text::lemma_run_is(c, CharClass::White, true, 0);
        assert(c.skip(0) =~= c);
    }
}

// ---- amounts ----

/// Tokens joined in two parts.
proof fn lemma_join_parts(a: Seq<Seq<char>>, b: Seq<Seq<char>>)
    requires
        a.len() > 0,
        b.len() > 0,
    ensures
        text::join_spec(a + b, " "@) == text::join_spec(a, " "@) + " "@ + text::join_spec(b, " "@),
    decreases b.len(),
{
    let ab = a + b;
    assert(ab.drop_last() =~= a + b.drop_last());
    assert(ab.last() == b.last());
    if b.len() == 1 {
        assert(b.drop_last() =~= Seq::empty());
        assert(a + b.drop_last() =~= a);
        assert(b[0] == b.last());
        assert(text::join_spec(ab, " "@) =~= text::join_spec(a, " "@) + " "@ + text::join_spec(
            b,
            " "@,
        ));
    } else {
        lemma_join_parts(a, b.drop_last());
        assert(text::join_spec(ab, " "@) =~= text::join_spec(a, " "@) + " "@ + text::join_spec(
            b,
            " "@,
        ));
    }
}

/// The parts of an amount, a space apart.
pub open spec fn figure(num: Seq<char>, commodity: Seq<char>, rest: Seq<Seq<char>>) -> Seq<char> {
    num + (if commodity.len() == 0 {
        Seq::empty()
    } else {
        seq![' '] + commodity
    }) + (if rest.len() == 0 {
        Seq::empty()
    } else {
        seq![' '] + text::join_spec(rest, " "@)
    })
}

/// An amount is its parts, a space apart.
proof fn lemma_figure(toks: Seq<Seq<char>>)
    requires
        tokens::all_words(toks),
        toks.len() > 0,
        !lex::is_rest_start_spec(toks[0]),
    ensures
        ({
            let (num, commodity, rest) = lex::split_amount_spec(toks);
            &&& figure(num, commodity, rest) == text::join_spec(toks, " "@)
            &&& num.len() > 0
        }),
{
    reveal_strlit(" ");
    let (num, commodity, rest) = lex::split_amount_spec(toks);
    let cut = lex::rest_at_spec(toks);
    restyle::lemma_rest_at(toks);
    restyle::lemma_rest_at(toks.skip(1));
    let amt = toks.take(cut);
    let tail = toks.skip(cut);
    assert(cut > 0);
    let one = seq![' '];
    assert(" "@ =~= one);
    settle::lemma_groups(amt.skip(1));
    let n = if lex::is_number_like_spec(amt[0]) {
        1 + lex::groups_spec(amt.skip(1))
    } else {
        amt.len() as int
    };
    let head = amt.take(n);
    assert(num == text::join_spec(head, " "@)) by {
        if !lex::is_number_like_spec(amt[0]) {
            assert(head =~= amt);
        }
    }
    assert(tokens::all_words(head)) by {
        assert forall|i: int| 0 <= i < head.len() implies tokens::is_word(#[trigger] head[i]) by {
            assert(head[i] == toks[i]);
        }
    }
    tokens::lemma_join_ends(head);
    if n < amt.len() {
        assert(commodity == toks[n]);
        assert(tokens::is_word(toks[n]));
        let more = toks.skip(n + 1);
        assert(rest =~= more);
        let left = head.push(commodity);
        assert(left.drop_last() =~= head);
        assert(text::join_spec(left, " "@) =~= num + one + commodity);
        if more.len() > 0 {
            lemma_join_parts(left, more);
            assert(toks =~= left + more);
            assert(figure(num, commodity, rest) =~= text::join_spec(toks, " "@));
        } else {
            assert(toks =~= left);
            assert(figure(num, commodity, rest) =~= text::join_spec(toks, " "@));
        }
    } else {
        assert(commodity.len() == 0);
        assert(head =~= amt);
        assert(rest =~= tail);
        if tail.len() > 0 {
            lemma_join_parts(amt, tail);
            assert(toks =~= amt + tail);
            assert(figure(num, commodity, rest) =~= text::join_spec(toks, " "@));
        } else {
            assert(toks =~= amt);
            assert(figure(num, commodity, rest) =~= text::join_spec(toks, " "@));
        }
    }
}

/// An amount written like that is trimmed, and has tokens if it is one.
proof fn lemma_figure_trimmed(a: Seq<char>)
    requires
        plain_figure(a),
    ensures
        trimmed(a),
        tokens::all_words(text::words_spec(a)),
        a.len() > 0 ==> text::words_spec(a).len() > 0 && a[0] == text::words_spec(a)[0][0],
{
    let toks = text::words_spec(a);
    tokens::lemma_words_are_words(a);
    if a.len() > 0 {
        assert(toks.len() > 0);
        tokens::lemma_join_ends(toks);
        assert(tokens::is_word(toks[0]));
        assert(tokens::is_word(toks[toks.len() - 1]));
    }
}

// ---- postings ----

/// A posting as its line reads.
pub open spec fn laid(p: NewPost) -> Post {
    if p.amount.len() == 0 {
        Post::Bare(p.account, noted(p.comment))
    } else {
        let (num, commodity, rest) = lex::split_amount_spec(text::words_spec(p.amount));
        Post::Amount { account: p.account, num, commodity, rest, comment: noted(p.comment) }
    }
}

/// The line of a posting with an amount reads as that posting.
#[verifier::rlimit(40)]
proof fn lemma_amount_back(p: NewPost)
    requires
        plain_entry(p),
        p.amount.len() > 0,
    ensures
        posting::parse_posting_spec(crate::add::write::post_line(p.account, p)) == laid(p),
        recovery::post_of(laid(p)) == Some(p),
{
    reveal_strlit(" ");
    let toks = text::words_spec(p.amount);
    lemma_figure_trimmed(p.amount);
    tokens::lemma_words_are_words(p.amount);
    assert(tokens::is_word(toks[0]));
    lemma_figure(toks);
    settle::lemma_split_parts(toks);
    let (num, commodity, rest) = lex::split_amount_spec(toks);
    lemma_note(p.comment);
    lemma_trim_plain(p.amount);
    let q = laid(p);
    assert forall|j: int| 0 <= j < toks.len() implies !(#[trigger] toks[j]).contains(';') by {
        if toks[j].contains(';') {
            let x = choose|x: int| 0 <= x < toks[j].len() && toks[j][x] == ';';
            assert(p.amount.contains(text::words_spec(p.amount)[j][x]));
        }
    }
    assert(settle::without(num, commodity, rest, ';'));
    assert(reread::plain_post(q));
    assert(reread::reread(q) == q);
    reread::lemma_laid_out(0, 0, q);
    assert(posting::render_spec(0, 0, q) =~= crate::add::write::post_line(p.account, p)) by {
        assert(figure(num, commodity, rest) == p.amount);
        assert(" "@ =~= seq![' ']);
        assert(posting::pad_left_spec(num, 0) == num);
        assert(posting::pad_right_spec(p.account, 0) == p.account);
    }
    assert(recovery::post_of(q)->0.amount =~= figure(num, commodity, rest));
}

/// The line of a posting reads as that posting.
proof fn lemma_post_back(p: NewPost)
    requires
        plain_entry(p),
    ensures
        ({
            let line = crate::add::write::post_line(p.account, p);
            &&& recovery::post_of(posting::parse_posting_spec(line)) == Some(p)
            &&& lex::is_indented_spec(line)
            &&& !line.contains('\n')
        }),
{
    reveal_strlit("    ");
    reveal_strlit("  ");
    reveal_strlit("; ");
    let line = crate::add::write::post_line(p.account, p);
    lemma_note(p.comment);
    lemma_figure_trimmed(p.amount);
    lemma_trim_plain(p.amount);
    if p.amount.len() == 0 {
        let q = laid(p);
        assert(reread::plain_post(q));
        reread::lemma_laid_out(0, 0, q);
        assert(posting::render_spec(0, 0, q) =~= line);
        assert(recovery::post_of(q)->0.amount =~= p.amount);
    } else {
        lemma_amount_back(p);
    }
    assert(line[0] == ' ');
    assert(line[4] == p.account[0]);
    text::lemma_run_is(line, CharClass::White, true, 4);
    let suffix = crate::add::write::comment_suffix_spec(p.comment);
    assert(!suffix.contains('\n')) by {
        if suffix.contains('\n') {
            let i = choose|i: int| 0 <= i < suffix.len() && suffix[i] == '\n';
            assert(suffix[i] == p.comment[i - 4]);
            assert(p.comment.contains('\n'));
        }
    }
    let mid = if p.amount.len() == 0 {
        Seq::<char>::empty()
    } else {
        "  "@ + p.amount
    };
    assert(!mid.contains('\n')) by {
        if mid.contains('\n') {
            let i = choose|i: int| 0 <= i < mid.len() && mid[i] == '\n';
            assert(mid[i] == p.amount[i - 2]);
            assert(p.amount.contains('\n'));
        }
    }
    assert(line =~= "    "@ + p.account + mid + suffix);
    if line.contains('\n') {
        let i = choose|i: int| 0 <= i < line.len() && line[i] == '\n';
        let a = 4 + p.account.len();
        if i < 4 {
        } else if i < a {
            assert(line[i] == p.account[i - 4]);
            assert(p.account.contains('\n'));
        } else if i < a + mid.len() {
            assert(line[i] == mid[i - a]);
            assert(mid.contains('\n'));
        } else {
            assert(line[i] == suffix[i - a - mid.len()]);
            assert(suffix.contains('\n'));
        }
    }
}

/// The lines of postings read as those postings.
proof fn lemma_posts_back(ps: Seq<NewPost>)
    requires
        forall|i: int| 0 <= i < ps.len() ==> plain_entry(#[trigger] ps[i]),
    ensures
        ({
            let ls = crate::add::write::post_lines(ps, Rewrites::none());
            &&& ls.len() == ps.len()
            &&& recovery::posts_of(ls) == ps
            &&& forall|i: int|
                0 <= i < ls.len() ==> lex::is_indented_spec(#[trigger] ls[i]) && !ls[i].contains(
                    '\n',
                )
        }),
    decreases ps.len(),
{
    let ls = crate::add::write::post_lines(ps, Rewrites::none());
    if ps.len() == 0 {
        assert(recovery::posts_of(ls) =~= ps);
    } else {
        let front = ps.drop_last();
        let p = ps[ps.len() - 1];
        assert forall|i: int| 0 <= i < front.len() implies plain_entry(#[trigger] front[i]) by {
            assert(front[i] == ps[i]);
        }
        lemma_posts_back(front);
        lemma_post_back(p);
        let before = crate::add::write::post_lines(front, Rewrites::none());
        assert(!Rewrites::none().active());
        assert(ls == before.push(crate::add::write::post_line(p.account, p)));
        assert(ls.drop_last() =~= before);
        assert(recovery::posts_of(ls) =~= front.push(p));
        assert(front.push(p) =~= ps);
    }
}

// ---- headers ----

/// A header before its comment: the date, and the description behind it.
pub open spec fn titled(t: NewTxn) -> Seq<char> {
    if t.description.len() == 0 {
        t.date.text()
    } else {
        t.date.text() + " "@ + t.description
    }
}

/// What a header consists of.
proof fn lemma_header_is(t: NewTxn)
    requires
        plain_txn(t),
    ensures
        t.header() == titled(t) + posting::comment_part_spec(noted(t.comment)),
        titled(t).len() >= t.date.text().len() > 0,
        titled(t)[0] == t.date.text()[0],
        !text::is_white(titled(t).last()),
        !titled(t).contains(';'),
        !titled(t).contains('\n'),
{
    reveal_strlit(" ");
    lemma_date_back(t.date, 0);
    lemma_note(t.comment);
    let d = t.date.text();
    let said = d + " "@ + t.description;
    let body = titled(t);
    assert(!text::is_white(d[d.len() - 1]));
    if t.description.len() == 0 {
        assert(said =~= d + " "@);
        assert(text::all_spec(" "@, CharClass::White));
        reread::lemma_rstrip_tail(d, " "@);
    } else {
        assert(said.last() == t.description.last());
        reread::lemma_rstrip_plain(said);
    }
    assert(text::trim_end_spec(said, CharClass::White) == body);
    assert forall|i: int| 0 <= i < body.len() implies #[trigger] body[i] != ';' && body[i]
        != '\n' by {
        if i < d.len() {
            assert(body[i] == d[i]);
            assert(d.contains(d[i]));
        } else if i > d.len() {
            assert(body[i] == t.description[i - d.len() - 1]);
            assert(t.description.contains(t.description[i - d.len() - 1]));
        }
    }
}

/// A text and a comment behind it come apart.
proof fn lemma_comment_apart(body: Seq<char>, comment: Option<Seq<char>>)
    requires
        body.len() > 0,
        !text::is_white(body.last()),
        !body.contains(';'),
        comment matches Some(n) ==> reread::plain_comment(n),
    ensures
        lex::split_comment_spec(body + posting::comment_part_spec(comment)) == (body, comment),
{
    reveal_strlit("  ");
    let h = body + posting::comment_part_spec(comment);
    let semi = CharClass::Is(';');
    assert forall|i: int| 0 <= i < body.len() implies semi.has(#[trigger] h[i]) == false by {
        assert(h[i] == body[i]);
        assert(body.contains(body[i]));
    }
    match comment {
        None => {
            assert(h =~= body);
            text::lemma_run_is(h, semi, false, h.len() as int);
            reread::lemma_rstrip_plain(h);
        },
        Some(n) => {
            let k = body.len() as int + 2;
            assert forall|i: int| 0 <= i < k implies semi.has(#[trigger] h[i]) == false by {
                if i >= body.len() {
                    assert(h[i] == ' ');
                }
            }
            assert(h[k] == n[0]);
            text::lemma_run_is(h, semi, false, k);
            assert(h.take(k) =~= body + "  "@);
            assert(text::all_spec("  "@, CharClass::White));
            reread::lemma_rstrip_tail(body, "  "@);
            assert(h.skip(k) =~= n);
        },
    }
}

/// The date is the first word of a header, and the description what follows.
proof fn lemma_title_back(t: NewTxn)
    requires
        plain_txn(t),
    ensures
        filemap::first_word(t.header()) == t.date.text(),
        text::trim_spec(parser::header_parts(titled(t)).1, CharClass::White) == t.description,
{
    reveal_strlit(" ");
    reveal_strlit("  ");
    lemma_date_back(t.date, 0);
    lemma_header_is(t);
    let d = t.date.text();
    let body = titled(t);
    let h = t.header();
    let after = h.skip(d.len() as int);
    assert(h =~= d + after) by {
        assert forall|i: int| 0 <= i < d.len() implies h[i] == d[i] by {
            assert(h[i] == body[i]);
        }
    }
    assert(after.len() == 0 || text::is_white(after[0])) by {
        if after.len() > 0 {
            if t.description.len() == 0 {
                assert(after[0] == posting::comment_part_spec(noted(t.comment))[0]);
            } else {
                assert(after[0] == body[d.len() as int]);
            }
        }
    }
    tokens::lemma_words_one(d);
    tokens::lemma_words_concat(d, after);
    assert(text::words_spec(h)[0] == d);
    let white = CharClass::White;
    assert forall|i: int| 0 <= i < d.len() implies white.has(#[trigger] body[i]) == false by {
        assert(body[i] == d[i]);
    }
    if t.description.len() == 0 {
        text::lemma_run_is(body, white, false, body.len() as int);
        lemma_trim_plain(Seq::empty());
        assert(t.description =~= Seq::empty());
    } else {
        assert(body[d.len() as int] == ' ');
        text::lemma_run_is(body, white, false, d.len() as int);
        assert(body.skip(d.len() as int + 1) =~= t.description);
        lemma_trim_plain(t.description);
    }
}

/// The header of a transaction reads as its date, its description and its
/// comment.
proof fn lemma_header_back(t: NewTxn)
    requires
        plain_txn(t),
    ensures
        ({
            let h = t.header();
            let (body, comment) = lex::split_comment_spec(h);
            &&& lex::opens_txn_spec(h)
            &&& !lex::opens_block_spec(h)
            &&& !h.contains('\n')
            &&& filemap::first_word(h) == t.date.text()
            &&& text::trim_spec(parser::header_parts(body).1, CharClass::White) == t.description
            &&& crate::add::write::comment_text_spec(comment) == t.comment
        }),
{
    reveal_strlit("  ");
    reveal_strlit("; ");
    reveal_strlit("comment");
    lemma_date_back(t.date, 0);
    lemma_header_is(t);
    lemma_title_back(t);
    lemma_note(t.comment);
    let body = titled(t);
    let part = posting::comment_part_spec(noted(t.comment));
    let h = t.header();
    lemma_comment_apart(body, noted(t.comment));
    assert(h[0] == body[0]);
    reread::lemma_rstrip(h);
    if lex::opens_block_spec(h) {
        assert(lex::rstrip_spec(h)[0] == h[0]);
    }
    if h.contains('\n') {
        let i = choose|i: int| 0 <= i < h.len() && h[i] == '\n';
        let k = body.len() as int;
        if i < k {
            assert(body[i] == '\n');
            assert(body.contains('\n'));
        } else if i < k + 2 {
            assert(h[i] == ' ');
        } else if i < k + 4 {
            assert(h[i] == "; "@[i - k - 2]);
        } else {
            assert(h[i] == t.comment[i - k - 4]);
            assert(t.comment.contains('\n'));
        }
    }
}

// ---- transactions ----

/// The lines of a recorded transaction, and a blank one.
pub open spec fn block(t: NewTxn) -> Seq<Seq<char>> {
    seq![t.header()] + crate::add::write::post_lines(t.postings, Rewrites::none()) + seq![Seq::<char>::empty()]
}

pub open spec fn blocks(ts: Seq<NewTxn>) -> Seq<Seq<char>>
    decreases ts.len(),
{
    if ts.len() == 0 {
        Seq::empty()
    } else {
        block(ts[0]) + blocks(ts.skip(1))
    }
}

/// What a recovery journal holds of transactions recorded one after another.
pub open spec fn recorded(ts: Seq<NewTxn>) -> Seq<char>
    decreases ts.len(),
{
    if ts.len() == 0 {
        Seq::empty()
    } else {
        recorded(ts.drop_last()) + recovery::record_spec(ts.last())
    }
}

proof fn lemma_blocks_push(ts: Seq<NewTxn>)
    requires
        ts.len() > 0,
    ensures
        blocks(ts) == blocks(ts.drop_last()) + block(ts.last()),
    decreases ts.len(),
{
    if ts.len() == 1 {
        assert(ts.skip(1) =~= Seq::empty());
        assert(ts.drop_last() =~= Seq::empty());
        assert(blocks(ts) =~= blocks(ts.drop_last()) + block(ts.last()));
    } else {
        let front = ts.drop_last();
        lemma_blocks_push(ts.skip(1));
        assert(front[0] == ts[0]);
        assert(front.skip(1) =~= ts.skip(1).drop_last());
        assert(ts.skip(1).last() == ts.last());
        assert(blocks(ts) =~= blocks(front) + block(ts.last()));
    }
}

pub proof fn lemma_unlines_concat(a: Seq<Seq<char>>, b: Seq<Seq<char>>)
    ensures
        fmt::unlines_spec(a + b) == fmt::unlines_spec(a) + fmt::unlines_spec(b),
    decreases b.len(),
{
    if b.len() == 0 {
        assert(a + b =~= a);
        assert(fmt::unlines_spec(a) + fmt::unlines_spec(b) =~= fmt::unlines_spec(a));
    } else {
        lemma_unlines_concat(a, b.drop_last());
        assert((a + b).drop_last() =~= a + b.drop_last());
        assert((a + b).last() == b.last());
        assert(fmt::unlines_spec(a + b) =~= fmt::unlines_spec(a) + fmt::unlines_spec(b));
    }
}

proof fn lemma_recorded(ts: Seq<NewTxn>)
    ensures
        recorded(ts) == fmt::unlines_spec(blocks(ts)),
    decreases ts.len(),
{
    if ts.len() > 0 {
        let t = ts.last();
        lemma_recorded(ts.drop_last());
        lemma_blocks_push(ts);
        lemma_unlines_concat(blocks(ts.drop_last()), block(t));
        let ls = seq![t.header()] + crate::add::write::post_lines(t.postings, Rewrites::none());
        let gap = seq![Seq::<char>::empty()];
        lemma_unlines_concat(ls, gap);
        assert(gap.drop_last() =~= Seq::empty());
        assert(fmt::unlines_spec(gap.drop_last()) =~= Seq::empty());
        assert(gap.last() =~= Seq::<char>::empty());
        assert(fmt::unlines_spec(gap) =~= seq!['\n']);
        assert(fmt::unlines_spec(ls).push('\n') =~= fmt::unlines_spec(ls) + fmt::unlines_spec(gap));
    }
}

proof fn lemma_txns_of_concat(ls: Seq<Seq<char>>, a: Seq<Span>, b: Seq<Span>)
    ensures
        recovery::txns_of(ls, a + b) == recovery::txns_of(ls, a) + recovery::txns_of(ls, b),
    decreases b.len(),
{
    if b.len() == 0 {
        assert(a + b =~= a);
        assert(recovery::txns_of(ls, a) + recovery::txns_of(ls, b) =~= recovery::txns_of(ls, a));
    } else {
        lemma_txns_of_concat(ls, a, b.drop_last());
        assert((a + b).drop_last() =~= a + b.drop_last());
        assert((a + b).last() == b.last());
        assert(recovery::txns_of(ls, a + b) =~= recovery::txns_of(ls, a) + recovery::txns_of(
            ls,
            b,
        ));
    }
}

/// A run of indented lines ends where they do.
proof fn lemma_run_end_is(ls: Seq<Seq<char>>, i: int, end: int)
    requires
        0 <= i <= end < ls.len(),
        forall|j: int| i <= j < end ==> lex::is_indented_spec(#[trigger] ls[j]),
        !lex::is_indented_spec(ls[end]),
    ensures
        filemap::run_end(ls, i) == end,
    decreases end - i,
{
    if i < end {
        assert(lex::is_indented_spec(ls[i]));
        lemma_run_end_is(ls, i + 1, end);
    }
}

/// The transaction at a place where it was recorded.
proof fn lemma_txn_back(prefix: Seq<Seq<char>>, t: NewTxn, rest: Seq<Seq<char>>, this_year: i32)
    requires
        plain_txn(t),
    ensures
        ({
            let ls = prefix + (block(t) + rest);
            let i = prefix.len() as int;
            let end = i + 1 + t.postings.len();
            let span = Span { start: i, end, date: Some(t.date) };
            &&& filemap::spans_spec(ls, i, false, None, this_year) == seq![span]
                + filemap::spans_spec(ls, end + 1, false, None, this_year)
            &&& recovery::txn_of(ls, span) == Some(t)
            &&& block(t).len() == t.postings.len() + 2
        }),
{
    let ls = prefix + (block(t) + rest);
    let i = prefix.len() as int;
    let end = i + 1 + t.postings.len();
    let posts = crate::add::write::post_lines(t.postings, Rewrites::none());
    lemma_header_back(t);
    lemma_posts_back(t.postings);
    lemma_date_back(t.date, this_year as int);
    assert(block(t).len() == t.postings.len() + 2);
    assert(ls[i] == t.header());
    assert(ls[end] =~= Seq::<char>::empty()) by {
        assert(ls[end] == block(t)[t.postings.len() as int + 1]);
    }
    assert forall|j: int| i + 1 <= j < end implies lex::is_indented_spec(#[trigger] ls[j]) by {
        assert(ls[j] == posts[j - i - 1]);
    }
    lemma_run_end_is(ls, i + 1, end);
    assert(ls.subrange(i + 1, end) =~= posts);
    reveal_strlit("Y");
    reveal_strlit("year");
    reveal_strlit("comment");
    let blank = Seq::<char>::empty();
    laws::lemma_no_directive(blank, "Y"@);
    laws::lemma_no_directive(blank, "year"@);
    reread::lemma_rstrip(blank);
    assert(!lex::opens_block_spec(blank));
    assert(filemap::spans_spec(ls, end, false, None, this_year) == filemap::spans_spec(
        ls,
        end + 1,
        false,
        None,
        this_year,
    ));
}

proof fn lemma_all_back(prefix: Seq<Seq<char>>, ts: Seq<NewTxn>, this_year: i32)
    requires
        forall|i: int| 0 <= i < ts.len() ==> plain_txn(#[trigger] ts[i]),
    ensures
        ({
            let ls = prefix + blocks(ts);
            recovery::txns_of(
                ls,
                filemap::spans_spec(ls, prefix.len() as int, false, None, this_year),
            ) == ts
        }),
    decreases ts.len(),
{
    let ls = prefix + blocks(ts);
    if ts.len() == 0 {
        assert(recovery::txns_of(ls, Seq::<Span>::empty()) =~= ts);
    } else {
        let t = ts[0];
        let more = ts.skip(1);
        assert forall|i: int| 0 <= i < more.len() implies plain_txn(#[trigger] more[i]) by {
            assert(more[i] == ts[i + 1]);
        }
        let next = prefix + block(t);
        lemma_txn_back(prefix, t, blocks(more), this_year);
        lemma_all_back(next, more, this_year);
        assert(ls =~= next + blocks(more));
        let i = prefix.len() as int;
        let end = i + 1 + t.postings.len();
        let span = Span { start: i, end, date: Some(t.date) };
        let later = filemap::spans_spec(ls, end + 1, false, None, this_year);
        assert(next.len() == end + 1);
        lemma_txns_of_concat(ls, seq![span], later);
        assert(seq![span].drop_last() =~= Seq::empty());
        assert(recovery::txns_of(ls, Seq::<Span>::empty()) =~= Seq::empty());
        assert(recovery::txns_of(ls, seq![span]) =~= seq![t]);
        assert(seq![t] + more =~= ts);
    }
}

proof fn lemma_blocks_lines(ts: Seq<NewTxn>)
    requires
        forall|i: int| 0 <= i < ts.len() ==> plain_txn(#[trigger] ts[i]),
    ensures
        forall|i: int| 0 <= i < blocks(ts).len() ==> !(#[trigger] blocks(ts)[i]).contains('\n'),
    decreases ts.len(),
{
    if ts.len() > 0 {
        let t = ts[0];
        let more = ts.skip(1);
        assert forall|i: int| 0 <= i < more.len() implies plain_txn(#[trigger] more[i]) by {
            assert(more[i] == ts[i + 1]);
        }
        lemma_blocks_lines(more);
        lemma_header_back(t);
        lemma_posts_back(t.postings);
        let posts = crate::add::write::post_lines(t.postings, Rewrites::none());
        let b = block(t);
        assert forall|i: int| 0 <= i < blocks(ts).len() implies !(
        #[trigger] blocks(ts)[i]).contains('\n') by {
            if i == 0 {
                assert(blocks(ts)[i] == t.header());
            } else if i < 1 + posts.len() {
                assert(blocks(ts)[i] == posts[i - 1]);
            } else if i < b.len() {
                assert(blocks(ts)[i] =~= Seq::<char>::empty());
            } else {
                assert(blocks(ts)[i] == blocks(more)[i - b.len()]);
            }
        }
    }
}

/// Transactions that are recorded one after another are read back as they were,
/// in order, whatever year it is: replaying a session that died restores it.
pub proof fn recorded_transactions_are_read_back(ts: Seq<NewTxn>, this_year: i32)
    requires
        forall|i: int| 0 <= i < ts.len() ==> plain_txn(#[trigger] ts[i]),
    ensures
        recovery::parse_transactions_spec(recorded(ts), this_year) == ts,
{
    let none = Seq::<Seq<char>>::empty();
    lemma_recorded(ts);
    lemma_blocks_lines(ts);
    tokens::lines_come_back(blocks(ts));
    lemma_all_back(none, ts, this_year);
    assert(none + blocks(ts) =~= blocks(ts));
}

} // verus!
