//! How texts fall into words and lines, and come back together.

use vstd::prelude::*;
use crate::fmt;
use crate::text::{self, CharClass};

verus! {

/// Whether a text can be one word: it is not empty and holds no white space.
pub open spec fn is_word(s: Seq<char>) -> bool {
    s.len() > 0 && forall|i: int| 0 <= i < s.len() ==> !text::is_white(#[trigger] s[i])
}

pub open spec fn all_words(ws: Seq<Seq<char>>) -> bool {
    forall|i: int| 0 <= i < ws.len() ==> is_word(#[trigger] ws[i])
}

/// The words of white space and a text are the words of the text.
proof fn lemma_words_lead(a: Seq<char>, b: Seq<char>)
    requires
        text::all_spec(a, CharClass::White),
    ensures
        text::words_spec(a + b) == text::words_spec(b),
{
    let ab = a + b;
    let r = text::run_spec(b, CharClass::White, true);
    text::lemma_run(b, CharClass::White, true);
    assert forall|i: int| 0 <= i < a.len() + r implies CharClass::White.has(#[trigger] ab[i])
        == true by {
        if i >= a.len() {
            assert(ab[i] == b[i - a.len()]);
        } else {
            assert(ab[i] == a[i]);
        }
    }
    if a.len() + r < ab.len() {
        assert(ab[a.len() + r] == b[r]);
    }
    text::lemma_run_is(ab, CharClass::White, true, a.len() + r);
    assert(ab.skip(a.len() + r) =~= b.skip(r));
}

/// Where white space parts two texts, their words are those of the one and
/// then those of the other.
pub proof fn lemma_words_concat(a: Seq<char>, b: Seq<char>)
    requires
        a.len() == 0 || b.len() == 0 || text::is_white(b[0]) || text::is_white(a.last()),
    ensures
        text::words_spec(a + b) == text::words_spec(a) + text::words_spec(b),
    decreases a.len(),
{
    let r = text::run_spec(a, CharClass::White, true);
    text::lemma_run(a, CharClass::White, true);
    if r == a.len() {
        lemma_words_lead(a, b);
        lemma_words_lead(a, Seq::empty());
        assert(a + Seq::<char>::empty() =~= a);
        assert(text::words_spec(Seq::<char>::empty()) =~= Seq::empty());
        assert(text::words_spec(a) + text::words_spec(b) =~= text::words_spec(b));
    } else {
        let ab = a + b;
        let ta = a.skip(r);
        let n = text::run_spec(ta, CharClass::White, false);
        text::lemma_run(ta, CharClass::White, false);
        assert(ta[0] == a[r]);
        assert(n > 0);
        assert forall|i: int| 0 <= i < r implies CharClass::White.has(#[trigger] ab[i]) == true by {
            assert(ab[i] == a[i]);
        }
        assert(ab[r] == a[r]);
        text::lemma_run_is(ab, CharClass::White, true, r);
        let t = ab.skip(r);
        assert(t =~= ta + b);
        assert forall|i: int| 0 <= i < n implies CharClass::White.has(#[trigger] t[i])
            == false by {
            assert(t[i] == ta[i]);
        }
        if n < t.len() {
            if n < ta.len() {
                assert(t[n] == ta[n]);
            } else {
                assert(t[n] == b[0]);
                assert(a.last() == ta[n - 1]);
            }
        }
        text::lemma_run_is(t, CharClass::White, false, n);
        assert(t.take(n) =~= ta.take(n));
        let rest = ta.skip(n);
        assert(t.skip(n) =~= rest + b);
        if rest.len() > 0 {
            assert(rest.last() == a.last());
        }
        lemma_words_concat(rest, b);
        assert(text::words_spec(ab) =~= seq![ta.take(n)] + text::words_spec(rest + b));
        assert(text::words_spec(a) =~= seq![ta.take(n)] + text::words_spec(rest));
        assert(text::words_spec(ab) =~= text::words_spec(a) + text::words_spec(b));
    }
}

/// White space holds no words.
pub proof fn lemma_words_white(a: Seq<char>)
    requires
        text::all_spec(a, CharClass::White),
    ensures
        text::words_spec(a) == Seq::<Seq<char>>::empty(),
{
    lemma_words_lead(a, Seq::empty());
    assert(a + Seq::<char>::empty() =~= a);
    assert(text::words_spec(Seq::<char>::empty()) =~= Seq::empty());
}

/// A word is its own one word.
pub proof fn lemma_words_one(w: Seq<char>)
    requires
        is_word(w),
    ensures
        text::words_spec(w) == seq![w],
{
    text::lemma_run_is(w, CharClass::White, true, 0);
    assert(w.skip(0) =~= w);
    text::lemma_run_is(w, CharClass::White, false, w.len() as int);
    assert(w.take(w.len() as int) =~= w);
    let none = w.skip(w.len() as int);
    assert(none =~= Seq::empty());
    assert(text::words_spec(none) =~= Seq::empty());
    assert(text::words_spec(w) =~= seq![w] + Seq::empty());
}

/// The words of words that are joined with spaces are those words.
pub proof fn lemma_words_join(ws: Seq<Seq<char>>)
    requires
        all_words(ws),
    ensures
        text::words_spec(text::join_spec(ws, " "@)) == ws,
    decreases ws.len(),
{
    reveal_strlit(" ");
    if ws.len() == 0 {
        assert(text::words_spec(Seq::<char>::empty()) =~= Seq::empty());
        assert(ws =~= Seq::empty());
    } else if ws.len() == 1 {
        lemma_words_one(ws[0]);
        assert(ws =~= seq![ws[0]]);
    } else {
        let front = ws.drop_last();
        assert forall|i: int| 0 <= i < front.len() implies is_word(#[trigger] front[i]) by {
            assert(front[i] == ws[i]);
        }
        lemma_words_join(front);
        let j = text::join_spec(front, " "@);
        let last = ws.last();
        assert(is_word(ws[ws.len() - 1]));
        lemma_words_one(last);
        lemma_words_concat(" "@, last);
        lemma_words_white(" "@);
        assert(Seq::<Seq<char>>::empty() + seq![last] =~= seq![last]);
        lemma_words_concat(j, " "@ + last);
        assert(j + (" "@ + last) =~= j + " "@ + last);
        assert(front + seq![last] =~= ws);
    }
}

/// The words of a text are words.
pub proof fn lemma_words_are_words(s: Seq<char>)
    ensures
        all_words(text::words_spec(s)),
        forall|k: int, i: int|
            #![trigger text::words_spec(s)[k][i]]
            0 <= k < text::words_spec(s).len() && 0 <= i < text::words_spec(s)[k].len()
                ==> s.contains(text::words_spec(s)[k][i]),
    decreases s.len(),
{
    let r = text::run_spec(s, CharClass::White, true);
    text::lemma_run(s, CharClass::White, true);
    let t = s.skip(r);
    let n = text::run_spec(t, CharClass::White, false);
    text::lemma_run(t, CharClass::White, false);
    if t.len() > 0 {
        assert(t[0] == s[r]);
        let rest = t.skip(n);
        lemma_words_are_words(rest);
        let ws = text::words_spec(s);
        let more = text::words_spec(rest);
        assert(ws =~= seq![t.take(n)] + more);
        assert forall|k: int| 0 <= k < ws.len() implies is_word(#[trigger] ws[k]) by {
            if k == 0 {
                assert forall|i: int| 0 <= i < n implies !text::is_white(#[trigger] t.take(n)[i]) by {
                    assert(t.take(n)[i] == t[i]);
                }
            } else {
                assert(ws[k] == more[k - 1]);
            }
        }
        assert forall|k: int, i: int|
            #![trigger ws[k][i]]
            0 <= k < ws.len() && 0 <= i < ws[k].len() implies s.contains(ws[k][i]) by {
            if k == 0 {
                assert(ws[k][i] == s[r + i]);
            } else {
                assert(ws[k] == more[k - 1]);
                assert(rest.contains(more[k - 1][i]));
                let j = choose|j: int| 0 <= j < rest.len() && rest[j] == more[k - 1][i];
                assert(rest[j] == s[r + n + j]);
            }
        }
    } else {
        assert(text::words_spec(s) =~= Seq::empty());
    }
}

/// The words of a text are the words of its words joined.
pub proof fn lemma_words_rejoined(s: Seq<char>)
    ensures
        text::words_spec(text::join_spec(text::words_spec(s), " "@)) == text::words_spec(s),
{
    lemma_words_are_words(s);
    lemma_words_join(text::words_spec(s));
}

/// What a text with white space behind it ends in: joined words end as the
/// last of them does and start as the first does.
pub proof fn lemma_join_ends(ws: Seq<Seq<char>>)
    requires
        ws.len() > 0,
        all_words(ws),
    ensures
        text::join_spec(ws, " "@).len() > 0,
        text::join_spec(ws, " "@)[0] == ws[0][0],
        text::join_spec(ws, " "@).last() == ws.last().last(),
    decreases ws.len(),
{
    reveal_strlit(" ");
    assert(is_word(ws[0]));
    if ws.len() > 1 {
        let front = ws.drop_last();
        assert forall|i: int| 0 <= i < front.len() implies is_word(#[trigger] front[i]) by {
            assert(front[i] == ws[i]);
        }
        lemma_join_ends(front);
        assert(front[0] == ws[0]);
        assert(is_word(ws[ws.len() - 1]));
        let j = text::join_spec(front, " "@);
        let whole = text::join_spec(ws, " "@);
        assert(whole == j + " "@ + ws.last());
        assert(whole[0] == j[0]);
    }
}

/// Joined words hold no other characters than the words and spaces.
pub proof fn lemma_join_chars(ws: Seq<Seq<char>>, c: char)
    requires
        c != ' ',
        forall|k: int| 0 <= k < ws.len() ==> !(#[trigger] ws[k]).contains(c),
    ensures
        !text::join_spec(ws, " "@).contains(c),
    decreases ws.len(),
{
    reveal_strlit(" ");
    if ws.len() == 1 {
        assert(!ws[0].contains(c));
    } else if ws.len() > 1 {
        let front = ws.drop_last();
        assert forall|k: int| 0 <= k < front.len() implies !(#[trigger] front[k]).contains(c) by {
            assert(front[k] == ws[k]);
        }
        lemma_join_chars(front, c);
        let j = text::join_spec(front, " "@);
        let whole = text::join_spec(ws, " "@);
        assert(whole == j + " "@ + ws.last());
        assert(!ws[ws.len() - 1].contains(c));
        if whole.contains(c) {
            let i = choose|i: int| 0 <= i < whole.len() && whole[i] == c;
            if i < j.len() {
                assert(j[i] == c);
                assert(j.contains(c));
            } else if i == j.len() {
                assert(whole[i] == ' ');
            } else {
                assert(ws.last()[i - j.len() - 1] == c);
                assert(ws[ws.len() - 1].contains(c));
            }
        }
    }
}

// ---- lines ----

/// A line and what follows its newline are the first piece and the others.
pub proof fn lemma_split_line(a: Seq<char>, b: Seq<char>)
    requires
        !a.contains('\n'),
    ensures
        text::split_spec(a.push('\n') + b, CharClass::Is('\n')) == seq![a] + text::split_spec(
            b,
            CharClass::Is('\n'),
        ),
{
    let s = a.push('\n') + b;
    let class = CharClass::Is('\n');
    assert forall|i: int| 0 <= i < a.len() implies class.has(#[trigger] s[i]) == false by {
        assert(s[i] == a[i]);
        assert(a.contains(a[i]));
    }
    assert(s[a.len() as int] == '\n');
    text::lemma_run_is(s, class, false, a.len() as int);
    assert(s.take(a.len() as int) =~= a);
    assert(s.skip(a.len() as int + 1) =~= b);
}

/// The text of lines is the first line, its newline, and the text of the
/// others.
pub proof fn lemma_unlines_front(ls: Seq<Seq<char>>)
    requires
        ls.len() > 0,
    ensures
        fmt::unlines_spec(ls) == ls[0].push('\n') + fmt::unlines_spec(ls.skip(1)),
    decreases ls.len(),
{
    if ls.len() == 1 {
        assert(ls.drop_last() =~= Seq::empty());
        assert(ls.skip(1) =~= Seq::empty());
        assert(fmt::unlines_spec(ls) =~= ls[0].push('\n') + fmt::unlines_spec(ls.skip(1)));
    } else {
        let front = ls.drop_last();
        lemma_unlines_front(front);
        assert(front[0] == ls[0]);
        assert(front.skip(1) =~= ls.skip(1).drop_last());
        assert(ls.skip(1).last() == ls.last());
        assert(fmt::unlines_spec(ls) =~= ls[0].push('\n') + fmt::unlines_spec(ls.skip(1)));
    }
}

/// Reading back what was written as lines gives the lines: nothing is lost or
/// added as long as no line holds a newline.
pub proof fn lines_come_back(ls: Seq<Seq<char>>)
    requires
        forall|i: int| 0 <= i < ls.len() ==> !(#[trigger] ls[i]).contains('\n'),
    ensures
        fmt::lines_spec(fmt::unlines_spec(ls)) == ls,
{
    lemma_split_unlines(ls);
    let s = fmt::unlines_spec(ls);
    if ls.len() > 0 {
        assert(s.last() == '\n');
        assert(ls.push(Seq::<char>::empty()).drop_last() =~= ls);
    } else {
        assert(ls =~= Seq::empty());
    }
}

proof fn lemma_split_unlines(ls: Seq<Seq<char>>)
    requires
        forall|i: int| 0 <= i < ls.len() ==> !(#[trigger] ls[i]).contains('\n'),
    ensures
        text::split_spec(fmt::unlines_spec(ls), CharClass::Is('\n')) == ls.push(Seq::empty()),
    decreases ls.len(),
{
    let class = CharClass::Is('\n');
    if ls.len() == 0 {
        let s = fmt::unlines_spec(ls);
        assert(s =~= Seq::empty());
        assert(text::split_spec(s, class) =~= seq![s]);
        assert(ls.push(Seq::empty()) =~= seq![s]);
    } else {
        lemma_unlines_front(ls);
        let rest = ls.skip(1);
        assert forall|i: int| 0 <= i < rest.len() implies !(#[trigger] rest[i]).contains('\n') by {
            assert(rest[i] == ls[i + 1]);
        }
        lemma_split_unlines(rest);
        assert(!ls[0].contains('\n'));
        lemma_split_line(ls[0], fmt::unlines_spec(rest));
        assert(ls.push(Seq::empty()) =~= seq![ls[0]] + rest.push(Seq::empty()));
    }
}

/// A piece between newlines holds none.
pub proof fn lemma_split_pieces(s: Seq<char>)
    ensures
        forall|k: int|
            0 <= k < text::split_spec(s, CharClass::Is('\n')).len() ==> !(
            #[trigger] text::split_spec(s, CharClass::Is('\n'))[k]).contains('\n'),
    decreases s.len(),
{
    let class = CharClass::Is('\n');
    let n = text::run_spec(s, class, false);
    text::lemma_run(s, class, false);
    let ps = text::split_spec(s, class);
    if n < s.len() {
        let rest = s.skip(n + 1);
        lemma_split_pieces(rest);
        assert(ps =~= seq![s.take(n)] + text::split_spec(rest, class));
        assert forall|k: int| 0 <= k < ps.len() implies !(#[trigger] ps[k]).contains('\n') by {
            if k == 0 {
                if s.take(n).contains('\n') {
                    let i = choose|i: int| 0 <= i < n && s.take(n)[i] == '\n';
                    assert(s[i] == '\n');
                }
            } else {
                assert(ps[k] == text::split_spec(rest, class)[k - 1]);
            }
        }
    } else {
        assert(ps =~= seq![s]);
        if s.contains('\n') {
            let i = choose|i: int| 0 <= i < s.len() && s[i] == '\n';
            assert(class.has(s[i]) == false);
        }
    }
}

/// No line of a text holds a newline.
pub proof fn lemma_lines_hold_no_newline(s: Seq<char>)
    ensures
        forall|k: int|
            0 <= k < fmt::lines_spec(s).len() ==> !(#[trigger] fmt::lines_spec(s)[k]).contains(
                '\n',
            ),
{
    lemma_split_pieces(s);
    let ps = text::split_spec(s, CharClass::Is('\n'));
    let ls = fmt::lines_spec(s);
    assert forall|k: int| 0 <= k < ls.len() implies !(#[trigger] ls[k]).contains('\n') by {
        assert(ls[k] == ps[k]);
    }
}

} // verus!
