//! Shared lexical layer.
//!
//! Every function here operates on a single line (or its tokens) and knows
//! nothing about what a line *means*. The formatter is built entirely out of
//! these; the journal parser uses them too, so the two agree on where an
//! account ends and an amount begins.

use vstd::prelude::*;
use vstd::string::*;
use crate::text::{self, CharClass};

verus! {

/// Whether every character is white space.
pub open spec fn is_blank_spec(s: Seq<char>) -> bool {
    forall|i: int| 0 <= i < s.len() ==> text::is_white(#[trigger] s[i])
}

/// Whether a line begins with one of `;`, `#` and `*`.
pub open spec fn is_comment_spec(s: Seq<char>) -> bool {
    s.len() > 0 && (s[0] == ';' || s[0] == '#' || s[0] == '*')
}

/// A line without its trailing white space.
pub open spec fn rstrip_spec(s: Seq<char>) -> Seq<char> {
    text::trim_end_spec(s, CharClass::White)
}

/// Whether a line opens a `comment` block.
pub open spec fn opens_block_spec(s: Seq<char>) -> bool {
    rstrip_spec(s) == "comment"@
}

/// Whether a line closes a `comment` block.
pub open spec fn closes_block_spec(s: Seq<char>) -> bool {
    rstrip_spec(s) == "end comment"@
}

/// How many of the lines after an opener belong to its block: those up to and
/// including the first closer, or all of them.
pub open spec fn block_len_spec(ls: Seq<Seq<char>>) -> int
    decreases ls.len(),
{
    if ls.len() == 0 {
        0
    } else if closes_block_spec(ls[0]) {
        1
    } else {
        1 + block_len_spec(ls.skip(1))
    }
}

/// Whether a line opens a transaction: it begins with a digit.
pub open spec fn opens_txn_spec(s: Seq<char>) -> bool {
    s.len() > 0 && text::is_digit(s[0])
}

/// Whether a line opens a periodic or auto rule.
pub open spec fn opens_rule_spec(s: Seq<char>) -> bool {
    s.len() > 0 && (s[0] == '~' || s[0] == '=')
}

/// Whether a line is indented and not blank.
pub open spec fn is_indented_spec(s: Seq<char>) -> bool {
    s.len() > 0 && text::is_white(s[0]) && !is_blank_spec(s)
}

/// A line before its first `;`, stripped, and from there on.
pub open spec fn split_comment_spec(s: Seq<char>) -> (Seq<char>, Option<Seq<char>>) {
    match text::find_spec(s, CharClass::Is(';')) {
        None => (rstrip_spec(s), None),
        Some(i) => (rstrip_spec(s.take(i)), Some(s.skip(i))),
    }
}

/// Where the first two neighbouring spaces or tabs stand; the length where
/// there are none.
pub open spec fn gap_spec(s: Seq<char>) -> int
    decreases s.len(),
{
    if s.len() < 2 {
        s.len() as int
    } else if CharClass::Gap.has(s[0]) && CharClass::Gap.has(s[1]) {
        0
    } else {
        1 + gap_spec(s.skip(1))
    }
}

/// A posting body before and after the first gap of two or more spaces or
/// tabs.
pub open spec fn split_account_spec(s: Seq<char>) -> (Seq<char>, Seq<char>) {
    let n = gap_spec(s);
    (s.take(n), text::trim_start_spec(s.skip(n), CharClass::Gap))
}

/// Whether a token begins with `@` or `=`.
pub open spec fn is_rest_start_spec(t: Seq<char>) -> bool {
    t.len() > 0 && (t[0] == '@' || t[0] == '=')
}

/// Whether a token begins with a sign, a point or a digit and holds a digit.
pub open spec fn is_number_like_spec(t: Seq<char>) -> bool {
    t.len() > 0 && (CharClass::Sign.has(t[0]) || t[0] == '.' || text::is_digit(t[0])) && text::any_spec(
        t,
        CharClass::Digit,
    )
}

/// Whether a token begins with a digit.
pub open spec fn is_digit_group_spec(t: Seq<char>) -> bool {
    t.len() > 0 && text::is_digit(t[0])
}

/// What follows a keyword and the white space after it.
pub open spec fn after_keyword_spec(line: Seq<char>, keyword: Seq<char>) -> Option<Seq<char>> {
    if keyword.is_prefix_of(line) {
        let rest = line.skip(keyword.len() as int);
        if rest.len() > 0 && text::is_white(rest[0]) {
            Some(text::trim_start_spec(rest, CharClass::White))
        } else {
            None
        }
    } else {
        None
    }
}

/// `None` for an empty text.
pub open spec fn non_empty_spec(s: Seq<char>) -> Option<Seq<char>> {
    if s.len() == 0 {
        None
    } else {
        Some(s)
    }
}

/// The argument of a directive line: what follows its keyword, up to a comment
/// or a gap of two spaces.
pub open spec fn directive_arg_spec(line: Seq<char>, keyword: Seq<char>) -> Option<Seq<char>> {
    match after_keyword_spec(line, keyword) {
        None => None,
        Some(rest) => non_empty_spec(
            rstrip_spec(split_account_spec(split_comment_spec(rest).0).0),
        ),
    }
}

/// The argument of a directive whose argument runs to the comment or the end
/// of the line, gaps included.
pub open spec fn directive_rest_spec(line: Seq<char>, keyword: Seq<char>) -> Option<Seq<char>> {
    match after_keyword_spec(line, keyword) {
        None => None,
        Some(rest) => non_empty_spec(split_comment_spec(rest).0),
    }
}

/// Whether a line is a directive that takes no argument.
pub open spec fn is_directive_spec(line: Seq<char>, keyword: Seq<char>) -> bool {
    split_comment_spec(line).0 == keyword
}

/// The payee and the note of a description: what stands before and after its
/// first `|`. Without one both are the whole description.
pub open spec fn split_payee_note_spec(d: Seq<char>) -> (Seq<char>, Seq<char>) {
    match text::find_spec(d, CharClass::Is('|')) {
        None => (text::trim_spec(d, CharClass::White), text::trim_spec(d, CharClass::White)),
        Some(i) => (
            text::trim_spec(d.take(i), CharClass::White),
            text::trim_spec(d.skip(i + 1), CharClass::White),
        ),
    }
}

/// What follows a leading `*` or `!` status marker, if there is one.
pub open spec fn strip_status_spec(d: Seq<char>) -> Seq<char> {
    let t = text::trim_start_spec(d, CharClass::White);
    if t.len() > 0 && (t[0] == '*' || t[0] == '!') {
        text::trim_start_spec(t.skip(1), CharClass::White)
    } else {
        t
    }
}

/// How many tokens precede the first one that begins a cost or an assertion.
pub open spec fn rest_at_spec(toks: Seq<Seq<char>>) -> int
    decreases toks.len(),
{
    if toks.len() == 0 || is_rest_start_spec(toks[0]) {
        0
    } else {
        1 + rest_at_spec(toks.skip(1))
    }
}

/// How many tokens at the start begin with a digit.
pub open spec fn groups_spec(toks: Seq<Seq<char>>) -> int
    decreases toks.len(),
{
    if toks.len() == 0 || !is_digit_group_spec(toks[0]) {
        0
    } else {
        1 + groups_spec(toks.skip(1))
    }
}

/// The number field, the commodity and the remaining tokens of an amount.
///
/// The tokens before the cost or assertion are the amount. If the first reads
/// as a number, it and the digit groups behind it are the number field and the
/// token after those is the commodity; otherwise all of them together are the
/// number field.
pub open spec fn split_amount_spec(toks: Seq<Seq<char>>) -> (
    Seq<char>,
    Seq<char>,
    Seq<Seq<char>>,
) {
    let cut = rest_at_spec(toks);
    let amt = toks.take(cut);
    let rest = toks.skip(cut);
    if amt.len() > 0 && is_number_like_spec(amt[0]) {
        let n = 1 + groups_spec(amt.skip(1));
        let num = text::join_spec(amt.take(n), " "@);
        if n < amt.len() {
            (num, amt[n], amt.skip(n + 1) + rest)
        } else {
            (num, Seq::empty(), rest)
        }
    } else {
        (text::join_spec(amt, " "@), Seq::empty(), rest)
    }
}

/// All characters are white space (an empty line is blank).
#[must_use]
pub fn is_blank(s: &str) -> (r: bool)
    ensures
        r == is_blank_spec(s@),
{
    let n: usize = text::run(s, CharClass::White, true);
    proof {
        text::lemma_run(s@, CharClass::White, true);
    }
    n == s.unicode_len()
}

/// A line-start comment (column 0, not indented): `;`, `#` or `*`.
#[must_use]
pub fn is_comment(s: &str) -> (r: bool)
    ensures
        r == is_comment_spec(s@),
{
    match text::first(s) {
        Some(c) => c == ';' || c == '#' || c == '*',
        None => false,
    }
}

/// Whether a line opens a `comment` block, whose contents are opaque: not
/// journal syntax at all, and never read or rewritten.
///
/// The keyword must stand alone at column 0. `comment some words` is a parse
/// error, an indented `comment` is not an opener, and the keyword is lowercase
/// only. Trailing white space is fine.
#[must_use]
pub fn opens_comment_block(s: &str) -> (r: bool)
    ensures
        r == opens_block_spec(s@),
{
    text::same(rstrip(s), "comment")
}

/// Whether a line closes a `comment` block. Same shape as the opener, and
/// just as strict: an *indented* `end comment` does not close the block.
#[must_use]
pub fn closes_comment_block(s: &str) -> (r: bool)
    ensures
        r == closes_block_spec(s@),
{
    text::same(rstrip(s), "end comment")
}

/// How many lines a `comment` block occupies *after* its opener: its
/// contents, plus the `end comment` line if it has one.
///
/// An unterminated block runs to the end of the file.
#[must_use]
pub fn comment_block_len(after_opener: &[&str]) -> (r: usize)
    ensures
        r == block_len_spec(text::strs(after_opener@)),
        r <= after_opener@.len(),
{
    let ghost all = text::strs(after_opener@);
    assert(all.skip(0) =~= all);
    let mut i: usize = 0;
    while i < after_opener.len()
        invariant
            i <= after_opener.len(),
            all == text::strs(after_opener@),
            block_len_spec(all) == i + block_len_spec(all.skip(i as int)),
        decreases after_opener.len() - i,
    {
        assert(all.skip(i as int)[0] == after_opener@[i as int]@);
        assert(all.skip(i as int).skip(1) =~= all.skip(i + 1));
        i = i + 1;
        if closes_comment_block(after_opener[i - 1]) {
            return i;
        }
    }
    i
}

/// Whether a line opens a transaction.
///
/// A leading ASCII digit is the *only* test, which is what excludes periodic
/// (`~`) and auto (`=`) transactions.
#[must_use]
pub fn opens_txn(s: &str) -> (r: bool)
    ensures
        r == opens_txn_spec(s@),
{
    text::starts_in(s, CharClass::Digit)
}

/// Whether a line opens a periodic (`~`) or auto (`=`) transaction *rule*.
///
/// A rule is not a transaction, so nothing in it is balanced, filled in or
/// restyled. Its postings are laid out and nothing more, which is why this is
/// a separate question from [`opens_txn`].
#[must_use]
pub fn opens_rule(s: &str) -> (r: bool)
    ensures
        r == opens_rule_spec(s@),
{
    match text::first(s) {
        Some(c) => c == '~' || c == '=',
        None => false,
    }
}

/// An indented, non-blank line: a posting or an in-transaction comment.
#[must_use]
pub fn is_indented_non_blank(s: &str) -> (r: bool)
    ensures
        r == is_indented_spec(s@),
{
    text::starts_in(s, CharClass::White) && !is_blank(s)
}

/// Drop trailing white space.
#[must_use]
pub fn rstrip(s: &str) -> (r: &str)
    ensures
        r@ == rstrip_spec(s@),
{
    text::trim_end(s, CharClass::White)
}

/// Split off a trailing inline comment beginning at the first `;`.
///
/// Accounts and amounts never contain `;`, so the first one is the boundary.
#[must_use]
pub fn split_comment(s: &str) -> (r: (&str, Option<&str>))
    ensures
        r.0@ == split_comment_spec(s@).0,
        text::opt_str(r.1) == split_comment_spec(s@).1,
{
    match text::find(s, CharClass::Is(';')) {
        None => (rstrip(s), None),
        Some(i) => (rstrip(text::prefix(s, i)), Some(text::suffix(s, i))),
    }
}

/// Split a posting body into account and amount.
///
/// The separator is the first run of two or more spaces or tabs. A *single*
/// space or tab is not a separator — account names may contain single spaces.
/// No separator means the whole body is the account.
#[must_use]
pub fn split_account_amount(s: &str) -> (r: (&str, &str))
    ensures
        r.0@ == split_account_spec(s@).0,
        r.1@ == split_account_spec(s@).1,
{
    let n: usize = gap(s);
    (text::prefix(s, n), text::trim_start(text::suffix(s, n), CharClass::Gap))
}

/// Where the first gap of two spaces or tabs starts.
fn gap(s: &str) -> (r: usize)
    ensures
        r == gap_spec(s@),
        r <= s@.len(),
{
    let v = text::chars(s);
    let mut i: usize = 0;
    assert(s@.skip(0) =~= s@);
    while v.len() - i >= 2
        invariant
            i <= v.len(),
            v@ == s@,
            gap_spec(s@) == i + gap_spec(s@.skip(i as int)),
        decreases v.len() - i,
    {
        assert(s@.skip(i as int).skip(1) =~= s@.skip(i + 1));
        if CharClass::Gap.holds(v[i]) && CharClass::Gap.holds(v[i + 1]) {
            return i;
        }
        i = i + 1;
    }
    v.len()
}

/// A token that begins the cost (`@`, `@@`) or assertion (`=`, `==`) tail.
#[must_use]
pub fn is_rest_start(t: &str) -> (r: bool)
    ensures
        r == is_rest_start_spec(t@),
{
    match text::first(t) {
        Some(c) => c == '@' || c == '=',
        None => false,
    }
}

/// Whether a token reads as a bare, right-alignable number.
///
/// Deliberately rejects commodity-on-left tokens like `$100` and bare
/// commodities like `AMD`.
#[must_use]
pub fn is_number_like(t: &str) -> (r: bool)
    ensures
        r == is_number_like_spec(t@),
{
    match text::first(t) {
        Some(c) => (CharClass::Sign.holds(c) || c == '.' || CharClass::Digit.holds(c)) && text::any(
            t,
            CharClass::Digit,
        ),
        None => false,
    }
}

/// What follows a keyword and the white space after it.
fn after_keyword<'a>(line: &'a str, keyword: &str) -> (r: Option<&'a str>)
    ensures
        text::opt_str(r) == after_keyword_spec(line@, keyword@),
{
    if !text::starts_with(line, keyword) {
        return None;
    }
    let rest = text::suffix(line, keyword.unicode_len());
    if text::starts_in(rest, CharClass::White) {
        Some(text::trim_start(rest, CharClass::White))
    } else {
        None
    }
}

/// The argument of a top-level `keyword` directive line, comment and
/// annotation after two or more spaces stripped. `None` when the line is not
/// that directive.
#[must_use]
pub fn directive_arg<'a>(line: &'a str, keyword: &str) -> (r: Option<&'a str>)
    ensures
        text::opt_str(r) == directive_arg_spec(line@, keyword@),
{
    match after_keyword(line, keyword) {
        None => None,
        Some(rest) => {
            let (body, _comment) = split_comment(rest);
            let (arg, _tail) = split_account_amount(body);
            let arg = rstrip(arg);
            if arg.is_empty() {
                None
            } else {
                Some(arg)
            }
        },
    }
}

/// The argument of a directive whose argument may hold gaps: a payee, a tag,
/// an account prefix, an alias.
#[must_use]
pub fn directive_rest<'a>(line: &'a str, keyword: &str) -> (r: Option<&'a str>)
    ensures
        text::opt_str(r) == directive_rest_spec(line@, keyword@),
{
    match after_keyword(line, keyword) {
        None => None,
        Some(rest) => {
            let (arg, _comment) = split_comment(rest);
            if arg.is_empty() {
                None
            } else {
                Some(arg)
            }
        },
    }
}

/// Whether a line is a directive without an argument, such as
/// `end apply account`.
#[must_use]
pub fn is_directive(line: &str, keyword: &str) -> (r: bool)
    ensures
        r == is_directive_spec(line@, keyword@),
{
    text::same(split_comment(line).0, keyword)
}

/// Split a description into its payee and its note at the first `|`. Without
/// one, both are the whole description.
#[must_use]
pub fn split_payee_note(d: &str) -> (r: (&str, &str))
    ensures
        r.0@ == split_payee_note_spec(d@).0,
        r.1@ == split_payee_note_spec(d@).1,
{
    match text::find(d, CharClass::Is('|')) {
        None => (text::trim(d, CharClass::White), text::trim(d, CharClass::White)),
        Some(i) => (
            text::trim(text::prefix(d, i), CharClass::White),
            text::trim(text::suffix(d, i + 1), CharClass::White),
        ),
    }
}

/// Drop a leading `*` or `!` status marker from a description or an account.
#[must_use]
pub fn strip_status(d: &str) -> (r: &str)
    ensures
        r@ == strip_status_spec(d@),
{
    let t = text::trim_start(d, CharClass::White);
    match text::first(t) {
        Some(c) => if c == '*' || c == '!' {
            text::trim_start(text::suffix(t, 1), CharClass::White)
        } else {
            t
        },
        None => t,
    }
}

/// Whether a token continues a space-grouped number: it begins with a digit.
///
/// That is the whole test, and it is safe because an unquoted commodity symbol
/// cannot contain a digit at all, let alone start with one — so a token after
/// a number that starts with a digit can only be the rest of that number. The
/// trailing part is left unconstrained on purpose: the last group may carry an
/// attached symbol, as in `1 234 567.00£`.
#[must_use]
pub fn is_digit_group(t: &str) -> (r: bool)
    ensures
        r == is_digit_group_spec(t@),
{
    text::starts_in(t, CharClass::Digit)
}

/// The tokens from `from` up to `to`.
pub(crate) fn part<'a>(toks: &[&'a str], from: usize, to: usize) -> (r: Vec<&'a str>)
    requires
        from <= to <= toks@.len(),
    ensures
        r@ == toks@.subrange(from as int, to as int),
        text::strs(r@) == text::strs(toks@).subrange(from as int, to as int),
{
    let mut out: Vec<&'a str> = Vec::new();
    let mut i: usize = from;
    while i < to
        invariant
            from <= i <= to <= toks@.len(),
            out@ == toks@.subrange(from as int, i as int),
        decreases to - i,
    {
        out.push(toks[i]);
        i = i + 1;
        assert(out@ =~= toks@.subrange(from as int, i as int));
    }
    assert(text::strs(out@) =~= text::strs(toks@).subrange(from as int, to as int));
    out
}

/// How many tokens precede the cost or assertion tail.
pub(crate) fn rest_at(toks: &[&str]) -> (r: usize)
    ensures
        r == rest_at_spec(text::strs(toks@)),
        r <= toks@.len(),
{
    let ghost all = text::strs(toks@);
    assert(all.skip(0) =~= all);
    let mut i: usize = 0;
    while i < toks.len()
        invariant
            i <= toks.len(),
            all == text::strs(toks@),
            rest_at_spec(all) == i + rest_at_spec(all.skip(i as int)),
        decreases toks.len() - i,
    {
        assert(all.skip(i as int)[0] == toks@[i as int]@);
        assert(all.skip(i as int).skip(1) =~= all.skip(i + 1));
        if is_rest_start(toks[i]) {
            return i;
        }
        i = i + 1;
    }
    i
}

/// How many tokens from `from` on, and before `to`, are digit groups.
fn groups(toks: &[&str], from: usize, to: usize) -> (r: usize)
    requires
        from <= to <= toks@.len(),
    ensures
        r == groups_spec(text::strs(toks@).subrange(from as int, to as int)),
        from + r <= to,
{
    let ghost all = text::strs(toks@).subrange(from as int, to as int);
    assert(all.skip(0) =~= all);
    let mut i: usize = 0;
    while from + i < to
        invariant
            from + i <= to <= toks@.len(),
            all == text::strs(toks@).subrange(from as int, to as int),
            groups_spec(all) == i + groups_spec(all.skip(i as int)),
        decreases to - from - i,
    {
        assert(all.skip(i as int)[0] == toks@[from + i]@);
        assert(all.skip(i as int).skip(1) =~= all.skip(i + 1));
        if !is_digit_group(toks[from + i]) {
            return i;
        }
        i = i + 1;
    }
    i
}

/// Split amount tokens into (number field, commodity, remaining tokens).
///
/// The remainder is the cost/assertion tail, kept verbatim and never aligned.
///
/// A space between two digit groups is part of the number, not the boundary
/// with the commodity: `1 234.00 USD` is one amount, the way it is read and
/// printed under `commodity 1 000.00 USD`.
#[must_use]
pub fn split_amount<'a>(toks: &[&'a str]) -> (r: (String, String, Vec<&'a str>))
    ensures
        r.0@ == split_amount_spec(text::strs(toks@)).0,
        r.1@ == split_amount_spec(text::strs(toks@)).1,
        text::strs(r.2@) == split_amount_spec(text::strs(toks@)).2,
{
    let ghost all = text::strs(toks@);
    let len: usize = toks.len();
    let cut: usize = rest_at(toks);
    let ghost amt = all.take(cut as int);
    if cut > 0 && is_number_like(toks[0]) {
        assert(amt[0] == toks@[0]@);
        assert(amt.skip(1) =~= all.subrange(1, cut as int));
        let n: usize = 1 + groups(toks, 1, cut);
        let num_toks = part(toks, 0, n);
        assert(amt.take(n as int) =~= all.subrange(0, n as int));
        let num = text::join(num_toks.as_slice(), " ");
        if n < cut {
            let mut rest = part(toks, n + 1, cut);
            let mut tail = part(toks, cut, len);
            let ghost a = rest@;
            let ghost b = tail@;
            rest.append(&mut tail);
            assert(text::strs(rest@) =~= amt.skip(n + 1) + all.skip(cut as int));
            assert(amt[n as int] == toks@[n as int]@);
            (num, toks[n].to_owned(), rest)
        } else {
            let tail = part(toks, cut, len);
            assert(text::strs(tail@) =~= all.skip(cut as int));
            (num, String::new(), tail)
        }
    } else {
        let num_toks = part(toks, 0, cut);
        assert(amt =~= all.subrange(0, cut as int));
        if cut > 0 {
            assert(amt[0] == toks@[0]@);
        }
        let tail = part(toks, cut, len);
        assert(text::strs(tail@) =~= all.skip(cut as int));
        (text::join(num_toks.as_slice(), " "), String::new(), tail)
    }
}

} // verus!
