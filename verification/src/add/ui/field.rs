//! The fields of an entry, and what is read out of their buffers.

use vstd::prelude::*;
use vstd::string::*;
use crate::add::index;
use crate::add::scope;
use crate::add::ui::distance;
use crate::amount::{AmountCtx, Ctx, Side};
use crate::lex;
use crate::restyle;
use crate::text::{self, CharClass};

verus! {

/// The field currently being edited.
#[derive(Debug, Clone, Copy, PartialEq, Eq, Structural)]
pub enum Field {
    /// The transaction date.
    Date,
    /// The description / payee.
    Description,
    /// Account of posting `i` (0-based).
    Account(usize),
    /// Amount of posting `i`.
    Amount(usize),
}

impl Default for Field {
    fn default() -> (r: Self)
        ensures
            r == Field::Date,
    {
        Field::Date
    }
}

/// A count that stays at the largest one.
pub open spec fn bounded(n: int) -> usize {
    if n > usize::MAX {
        usize::MAX
    } else {
        n as usize
    }
}

/// One more, unless there is no larger count.
pub(crate) fn next(n: usize) -> (r: usize)
    ensures
        r == bounded(n + 1),
{
    if n == usize::MAX {
        n
    } else {
        n + 1
    }
}

impl Field {
    /// The linear position, for navigation order.
    pub open spec fn ordinal_spec(self) -> usize {
        match self {
            Field::Date => 0,
            Field::Description => 1,
            Field::Account(i) => bounded(2 * i + 2),
            Field::Amount(i) => bounded(2 * i + 3),
        }
    }

    /// The field at a position.
    pub open spec fn at_ordinal(n: usize) -> Field {
        if n == 0 {
            Field::Date
        } else if n == 1 {
            Field::Description
        } else if n % 2 == 0 {
            Field::Account(((n - 2) / 2) as usize)
        } else {
            Field::Amount(((n - 2) / 2) as usize)
        }
    }

    /// The prompt label.
    pub open spec fn label_spec(self) -> Seq<char> {
        match self {
            Field::Date => "date"@,
            Field::Description => "description"@,
            Field::Account(i) => "account "@ + text::digits_spec(bounded(i + 1) as nat),
            Field::Amount(i) => "amount "@ + text::digits_spec(bounded(i + 1) as nat),
        }
    }

    /// Linear position, for navigation order.
    pub(crate) fn ordinal(self) -> (r: usize)
        ensures
            r == self.ordinal_spec(),
    {
        match self {
            Field::Date => 0,
            Field::Description => 1,
            Field::Account(i) => if i > (usize::MAX - 2) / 2 {
                usize::MAX
            } else {
                2 * i + 2
            },
            Field::Amount(i) => if i > (usize::MAX - 3) / 2 {
                usize::MAX
            } else {
                2 * i + 3
            },
        }
    }

    pub(crate) fn from_ordinal(n: usize) -> (r: Field)
        ensures
            r == Field::at_ordinal(n),
    {
        if n == 0 {
            Field::Date
        } else if n == 1 {
            Field::Description
        } else {
            let i: usize = (n - 2) / 2;
            // Even ordinals are accounts, odd ones amounts.
            if n % 2 == 0 {
                Field::Account(i)
            } else {
                Field::Amount(i)
            }
        }
    }

    /// Whether this field's buffer can carry a trailing `; comment`.
    ///
    /// Every field of a journal line can, which is the point — the comment is
    /// not a separate prompt, it is the tail of the line you are already
    /// typing.
    pub(crate) fn takes_comment(self) -> (r: bool)
        ensures
            r == (self != Field::Date),
    {
        match self {
            Field::Date => false,
            _ => true,
        }
    }

    /// The prompt label shown to the user.
    #[must_use]
    pub fn label(self) -> (r: String)
        ensures
            r@ == self.label_spec(),
    {
        match self {
            Field::Date => "date".to_owned(),
            Field::Description => "description".to_owned(),
            Field::Account(i) => text::cat("account ", text::digits(next(i)).as_str()),
            Field::Amount(i) => text::cat("amount ", text::digits(next(i)).as_str()),
        }
    }
}

/// The linear order of the fields loses nothing: every field is found again at
/// its position.
pub proof fn a_position_names_its_field(f: Field)
    requires
        f.ordinal_spec() < usize::MAX,
    ensures
        Field::at_ordinal(f.ordinal_spec()) == f,
{
}

// ---- comments in buffers ----

/// The value and the comment of a buffer.
pub open spec fn field_parts(buffer: Seq<char>) -> (Seq<char>, Option<Seq<char>>) {
    let parts = lex::split_comment_spec(buffer);
    (
        text::trim_spec(parts.0, CharClass::White),
        match parts.1 {
            Some(c) => Some(crate::add::write::comment_text_spec(Some(c))),
            None => None,
        },
    )
}

/// A value and a comment in one buffer.
pub open spec fn joined_field(value: Seq<char>, comment: Seq<char>) -> Seq<char> {
    let c = text::trim_spec(comment, CharClass::White);
    if c.len() == 0 {
        value
    } else if value.len() == 0 {
        "; "@ + c
    } else {
        value + " ; "@ + c
    }
}

/// Split a field buffer into its value and the comment a `;` introduces.
///
/// This is what makes comments cost nothing: `Rewe ; trip: berlin` in the
/// description field is a description and a comment, exactly as the journal
/// line reads, with no extra prompt for the overwhelmingly common case of no
/// comment at all. The returned comment has no `;` and is trimmed; `None`
/// means the buffer carried no comment.
pub(crate) fn split_field_comment(buffer: &str) -> (r: (String, Option<String>))
    ensures
        (r.0@, text::opt_text(r.1)) == field_parts(buffer@),
{
    let (body, comment) = lex::split_comment(buffer);
    (
        text::trim(body, CharClass::White).to_owned(),
        match comment {
            Some(c) => Some(crate::add::write::comment_text(Some(c))),
            None => None,
        },
    )
}

/// The inverse: put a field's value and comment back into one buffer, so
/// navigating back to a field shows what was typed there.
pub(crate) fn join_field_comment(value: &str, comment: &str) -> (r: String)
    ensures
        r@ == joined_field(value@, comment@),
{
    let c = text::trim(comment, CharClass::White);
    if c.is_empty() {
        value.to_owned()
    } else if value.is_empty() {
        text::cat("; ", c)
    } else {
        text::cat3(value, " ; ", c)
    }
}

// ---- tags ----

/// The tag name of one part of a comment: the last word before its colon.
pub open spec fn tag_name(part: Seq<char>) -> Seq<Seq<char>> {
    match text::find_spec(part, CharClass::Is(':')) {
        None => Seq::empty(),
        Some(i) => {
            let words = text::words_spec(part.take(i));
            if words.len() == 0 {
                Seq::empty()
            } else {
                seq![words.last()]
            }
        },
    }
}

/// The tag names of the parts of a comment.
pub open spec fn tag_names(parts: Seq<Seq<char>>) -> Seq<Seq<char>>
    decreases parts.len(),
{
    if parts.len() == 0 {
        Seq::empty()
    } else {
        tag_names(parts.drop_last()) + tag_name(parts.last())
    }
}

/// The tag names in a comment, each once.
pub open spec fn tags_spec(comment: Option<Seq<char>>) -> Seq<Seq<char>> {
    match comment {
        None => Seq::empty(),
        Some(c) => scope::with_new(
            Seq::empty(),
            tag_names(
                text::split_spec(
                    text::trim_start_spec(
                        text::trim_start_spec(c, CharClass::White),
                        CharClass::Is(';'),
                    ),
                    CharClass::Is(','),
                ),
            ),
        ),
    }
}

/// The tag names in a comment.
///
/// hledger's comment tag syntax is `name: value`, comma-separated; the name is
/// the word before a `:`. Only names are collected — values are free text and
/// completing them would be guessing.
pub(crate) fn tags_in(comment: Option<&str>) -> (r: Vec<String>)
    ensures
        text::texts(r@) == tags_spec(text::opt_str(comment)),
{
    let mut out: Vec<String> = Vec::new();
    assert(text::texts(out@) =~= Seq::empty());
    let c = match comment {
        None => {
            return out;
        },
        Some(c) => c,
    };
    let body = text::trim_start(text::trim_start(c, CharClass::White), CharClass::Is(';'));
    let parts = text::split(body, CharClass::Is(','));
    let ghost all = text::strs(parts@);
    let mut i: usize = 0;
    assert(all.take(0) =~= Seq::empty());
    while i < parts.len()
        invariant
            i <= parts@.len(),
            all == text::strs(parts@),
            text::texts(out@) == scope::with_new(Seq::empty(), tag_names(all.take(i as int))),
        decreases parts@.len() - i,
    {
        let part = parts[i];
        assert(all.take(i + 1).drop_last() =~= all.take(i as int));
        assert(all.take(i + 1).last() == part@);
        let ghost before = text::texts(out@);
        let ghost names = tag_names(all.take(i as int));
        assert(names + Seq::<Seq<char>>::empty() =~= names);
        if let Some(k) = text::find(part, CharClass::Is(':')) {
            proof {
                text::lemma_run(part@, CharClass::Is(':'), false);
            }
            // A tag name is the last whitespace-separated word before the
            // colon.
            let words = text::words(text::prefix(part, k));
            assert(text::strs(words@).len() == words@.len());
            if words.len() > 0 {
                let name = words[words.len() - 1];
                assert(text::strs(words@).last() == name@);
                assert((names + seq![name@]).drop_last() =~= names);
                assert((names + seq![name@]).last() == name@);
                if !text::has_text(out.as_slice(), name) {
                    out.push(name.to_owned());
                    assert(text::texts(out@) =~= before.push(name@));
                }
            }
        }
        i = i + 1;
    }
    assert(all.take(all.len() as int) =~= all);
    out
}

/// Where tag-name completion applies in a comment buffer: the text before the
/// name, and the partial name.
pub open spec fn tag_query_spec(buffer: Seq<char>) -> Option<(Seq<char>, Seq<char>)> {
    let start = match text::rfind_spec(buffer, CharClass::Is(',')) {
        Some(i) => i + 1,
        None => 0,
    };
    let current = buffer.skip(start);
    let name = text::trim_start_spec(current, CharClass::White);
    if text::any_spec(current, CharClass::Is(':')) || text::any_spec(name, CharClass::White) {
        None
    } else {
        Some((buffer.take(buffer.len() - name.len()), name))
    }
}

/// Where tag-name completion applies in a comment buffer.
///
/// hledger comment tags are `name: value`, comma-separated. Only a name
/// completes, so this returns `(text before the name, the partial name)` when
/// the cursor is in name position, and `None` once a `:` has been typed —
/// after that the user is writing a value, which is free text.
pub(crate) fn split_tag_query(buffer: &str) -> (r: Option<(&str, &str)>)
    ensures
        (match r {
            Some(p) => Some((p.0@, p.1@)),
            None => None,
        }) == tag_query_spec(buffer@),
{
    // The tag being typed starts after the last comma.
    let n: usize = buffer.unicode_len();
    let start: usize = match text::rfind(buffer, CharClass::Is(',')) {
        Some(i) => {
            proof {
                text::lemma_run_back(buffer@, CharClass::Is(','), false);
            }
            i + 1
        },
        None => 0,
    };
    let current = text::suffix(buffer, start);
    // A `:` means the name is settled and this is its value.
    if text::any(current, CharClass::Is(':')) {
        return None;
    }
    let name = text::trim_start(current, CharClass::White);
    // Tag names are single words; a space means this is prose, not a tag.
    if text::any(name, CharClass::White) {
        return None;
    }
    proof {
        text::lemma_run(current@, CharClass::White, true);
    }
    let m: usize = name.unicode_len();
    Some((text::prefix(buffer, n - m), name))
}

// ---- commodities ----

/// Where commodity completion applies in an amount buffer: the text before the
/// commodity, and the partial commodity.
pub open spec fn commodity_query_spec(buffer: Seq<char>) -> Option<(Seq<char>, Seq<char>)> {
    let cut = text::rfind_spec(buffer, CharClass::White);
    let head = match cut {
        Some(i) => buffer.take(i),
        None => Seq::empty(),
    };
    let last = match cut {
        Some(i) => buffer.skip(i + 1),
        None => buffer,
    };
    if buffer.len() == 0 {
        Some((Seq::empty(), Seq::empty()))
    } else if lex::is_rest_start_spec(last) {
        None
    } else if text::any_spec(last, CharClass::Digit) {
        Some((buffer, Seq::empty()))
    } else {
        Some((head, last))
    }
}

/// Where commodity completion applies in an amount buffer, classified by
/// the last whitespace-separated token. This makes the *second* commodity —
/// after an `@`/`@@` cost or `=`/`==`/`=*`/`==*` assertion tail —
/// completable exactly like the first.
///
/// - partial commodity (`23.45 EU`, `5 USD @ 1.10 E`) → `(head, partial)`:
///   complete the token
/// - number (`23.45`, `5 USD @ 1.10`) → `(buffer, "")`: offer commodities
///   to append
/// - operator (`5 USD @`) → `None`: a price/assertion number must come
///   first, so nothing to offer
pub(crate) fn split_commodity_query(buffer: &str) -> (r: Option<(&str, &str)>)
    ensures
        (match r {
            Some(p) => Some((p.0@, p.1@)),
            None => None,
        }) == commodity_query_spec(buffer@),
{
    proof {
        reveal_strlit("");
        assert(""@ =~= Seq::<char>::empty());
    }
    if buffer.is_empty() {
        return Some(("", ""));
    }
    let (head, last) = match text::rfind(buffer, CharClass::White) {
        Some(i) => {
            proof {
                text::lemma_run_back(buffer@, CharClass::White, false);
            }
            (text::prefix(buffer, i), text::suffix(buffer, i + 1))
        },
        None => ("", buffer),
    };
    if lex::is_rest_start(last) {
        return None;
    }
    if text::any(last, CharClass::Digit) {
        return Some((buffer, ""));
    }
    Some((head, last))
}

/// A number with a commodity attached, in the commodity's declared style.
pub open spec fn attached_commodity(number: Seq<char>, symbol: Seq<char>, ctx: Ctx) -> Seq<char> {
    match ctx.style_of(symbol) {
        Some(s) => restyle::attach_spec(number, symbol, s.symbol_side, s.symbol_space),
        None => restyle::attach_spec(number, symbol, Side::Right, true),
    }
}

/// Attach a commodity symbol to a bare typed number, following the
/// commodity's declared style for side and spacing (right with a space when
/// no style is declared). The typed number itself is never restyled.
pub(crate) fn attach_commodity(number: &str, symbol: &str, ctx: &AmountCtx) -> (r: String)
    requires
        symbol@.len() > 0,
    ensures
        r@ == attached_commodity(number@, symbol@, ctx@),
{
    let (side, spaced) = match ctx.styles.get(symbol) {
        Some(s) => (s.symbol_side, s.symbol_space),
        None => (Side::Right, true),
    };
    let space = if spaced {
        " "
    } else {
        ""
    };
    match side {
        Side::Left => text::cat3(symbol, space, number),
        Side::Right => text::cat3(number, space, symbol),
    }
}

// ---- near misses ----

/// The candidate at the least distance, the first of equally near ones in the
/// order of their characters.
pub open spec fn nearest_spec(lower: Seq<char>, pool: Seq<Seq<char>>) -> Option<(nat, Seq<char>)>
    decreases pool.len(),
{
    if pool.len() == 0 {
        None
    } else {
        let c = pool.last();
        let d = distance::levenshtein_spec(lower, text::lowercase(c));
        match nearest_spec(lower, pool.drop_last()) {
            None => Some((d, c)),
            Some(best) => if d < best.0 || (d == best.0 && index::text_before(c, best.1)) {
                Some((d, c))
            } else {
                Some(best)
            },
        }
    }
}

/// The candidate at the least distance, the first of equally near ones in the
/// pool.
pub open spec fn first_nearest(lower: Seq<char>, pool: Seq<Seq<char>>) -> Option<(nat, Seq<char>)>
    decreases pool.len(),
{
    if pool.len() == 0 {
        None
    } else {
        let c = pool.last();
        let d = distance::levenshtein_spec(lower, text::lowercase(c));
        match first_nearest(lower, pool.drop_last()) {
            None => Some((d, c)),
            Some(best) => if d < best.0 {
                Some((d, c))
            } else {
                Some(best)
            },
        }
    }
}

/// The candidate at the least distance. Equally near ones are told apart by
/// their text, or the first of them is kept.
pub(crate) fn nearest<'a>(lower: &str, pool: &'a [String], by_text: bool) -> (r: Option<
    (usize, &'a str),
>)
    ensures
        (match r {
            Some(p) => Some((p.0 as nat, p.1@)),
            None => None,
        }) == (if by_text {
            nearest_spec(lower@, text::texts(pool@))
        } else {
            first_nearest(lower@, text::texts(pool@))
        }),
{
    let ghost all = text::texts(pool@);
    let mut best: Option<(usize, &'a str)> = None;
    let mut i: usize = 0;
    assert(all.take(0) =~= Seq::empty());
    while i < pool.len()
        invariant
            i <= pool@.len(),
            all == text::texts(pool@),
            (match best {
                Some(p) => Some((p.0 as nat, p.1@)),
                None => None,
            }) == (if by_text {
                nearest_spec(lower@, all.take(i as int))
            } else {
                first_nearest(lower@, all.take(i as int))
            }),
        decreases pool@.len() - i,
    {
        let c: &'a str = pool[i].as_str();
        assert(all.take(i + 1).drop_last() =~= all.take(i as int));
        assert(all.take(i + 1).last() == c@);
        let low = text::to_lower(c);
        let d: usize = distance::levenshtein(lower, low.as_str());
        match best {
            None => {
                best = Some((d, c));
            },
            Some(b) => {
                if d < b.0 || (by_text && d == b.0 && index::is_before(c, b.1)) {
                    best = Some((d, c));
                }
            },
        }
        i = i + 1;
    }
    assert(all.take(all.len() as int) =~= all);
    best
}

/// The pool entry closest to a name, if it is close.
pub open spec fn closest_spec(name: Seq<char>, pool: Seq<Seq<char>>) -> Option<Seq<char>> {
    match nearest_spec(text::lowercase(name), pool) {
        Some(best) => if best.0 <= 2 {
            Some(best.1)
        } else {
            None
        },
        None => None,
    }
}

/// The pool entry closest to `name` (case-insensitive edit distance ≤ 2),
/// for "did you mean …?" hints.
pub(crate) fn closest(name: &str, pool: &[String]) -> (r: Option<String>)
    ensures
        text::opt_text(r) == closest_spec(name@, text::texts(pool@)),
{
    let lower = text::to_lower(name);
    match nearest(lower.as_str(), pool, true) {
        Some(best) => if best.0 <= 2 {
            Some(best.1.to_owned())
        } else {
            None
        },
        None => None,
    }
}

} // verus!
