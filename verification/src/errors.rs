//! Human-facing error text.
//!
//! Everything the user reads on stderr is phrased here. The rule: no Rust and
//! no OS internals. No `os error 2`, no serde's `invalid type: string "yes",
//! expected a boolean`. A message names what failed, says why in plain
//! language, and — where knowing why is not enough to act — carries an
//! indented hint saying what to do about it.
//!
//! The house shape, which every call site follows:
//!
//! ```text
//! hledger-xfmt: main.journal: no such file
//!   (create it, or name a different file)
//! ```

use vstd::prelude::*;
use vstd::string::*;
use vstd::utf8::encode_utf8;
use crate::fmt;
use crate::subtext;
use crate::text::{self, CharClass};

verus! {

// ---- what the system says ----

/// `std::io::Error`, as it is handed over.
#[verifier::external_type_specification]
#[verifier::external_body]
pub struct ExIoError(std::io::Error);

/// `toml::de::Error`, as it is handed over.
#[verifier::external_type_specification]
#[verifier::external_body]
pub struct ExTomlError(toml::de::Error);

/// The kinds of I/O failure worth naming.
#[derive(Debug, Clone, Copy, PartialEq, Eq, Structural)]
pub enum Failure {
    NotFound,
    PermissionDenied,
    IsADirectory,
    NotADirectory,
    StorageFull,
    ReadOnlyFilesystem,
    InvalidData,
    Other,
}

/// Which of the failures worth naming an I/O error is.
pub uninterp spec fn io_kind(e: std::io::Error) -> Failure;

/// `std::io::Error::kind`: which failure it was. The error decides the result.
#[verifier::external_body]
fn kind_of(e: &std::io::Error) -> (r: Failure)
    ensures
        r == io_kind(*e),
{
    match e.kind() {
        std::io::ErrorKind::NotFound => Failure::NotFound,
        std::io::ErrorKind::PermissionDenied => Failure::PermissionDenied,
        std::io::ErrorKind::IsADirectory => Failure::IsADirectory,
        std::io::ErrorKind::NotADirectory => Failure::NotADirectory,
        std::io::ErrorKind::StorageFull => Failure::StorageFull,
        std::io::ErrorKind::ReadOnlyFilesystem => Failure::ReadOnlyFilesystem,
        std::io::ErrorKind::InvalidData => Failure::InvalidData,
        _ => Failure::Other,
    }
}

/// `std::io::Error`'s `Display`: the system's sentence. Nothing is promised of
/// it, since the system may phrase it in the user's language.
#[verifier::external_body]
fn sentence_of(e: &std::io::Error) -> (r: String) {
    e.to_string()
}

/// What a TOML error complains of.
pub uninterp spec fn toml_message(e: toml::de::Error) -> Seq<char>;

/// `toml::de::Error::message`: the complaint. The error decides the result.
#[verifier::external_body]
fn complaint_of(e: &toml::de::Error) -> (r: String)
    ensures
        r@ == toml_message(*e),
{
    e.message().to_owned()
}

/// Where in the file a TOML error's complaint begins, if it is about a place.
pub uninterp spec fn toml_start(e: toml::de::Error) -> Option<usize>;

/// `toml::de::Error::span`: where the complaint begins in the file, if it is
/// about a place. The error decides the result.
#[verifier::external_body]
fn place_of(e: &toml::de::Error) -> (r: Option<usize>)
    ensures
        r == toml_start(*e),
{
    e.span().map(|span| span.start)
}

/// A character in lower case, which may take several.
pub uninterp spec fn char_lower(c: char) -> Seq<char>;

/// `char::to_lowercase` of std. The character decides the result.
#[verifier::external_body]
fn lower_char(c: char) -> (r: String)
    ensures
        r@ == char_lower(c),
{
    c.to_lowercase().to_string()
}

/// Whether Unicode counts a character as a letter or a number.
pub uninterp spec fn is_alnum(c: char) -> bool;

/// `char::is_alphanumeric` of std. The character decides the result.
pub assume_specification[ char::is_alphanumeric ](c: char) -> (r: bool)
    ensures
        r == is_alnum(c),
;

// ---- I/O ----

/// A sentence without its ` (os error 13)` tail.
pub open spec fn without_errno(s: Seq<char>) -> Seq<char> {
    match subtext::at_spec(s, " (os error "@) {
        Some(i) => s.take(i),
        None => s,
    }
}

/// A sentence with its first character in lower case.
pub open spec fn lower_first_spec(s: Seq<char>) -> Seq<char> {
    if s.len() == 0 {
        s
    } else {
        char_lower(s[0]) + s.skip(1)
    }
}

/// Why an I/O operation failed.
pub open spec fn reason_spec(kind: Failure, sentence: Seq<char>) -> Seq<char> {
    match kind {
        Failure::NotFound => "no such file"@,
        Failure::PermissionDenied => "permission denied"@,
        Failure::IsADirectory => "is a directory"@,
        Failure::NotADirectory => "a parent of this path is not a directory"@,
        Failure::StorageFull => "the disk is full"@,
        Failure::ReadOnlyFilesystem => "the filesystem is read-only"@,
        Failure::InvalidData => "not valid UTF-8 text"@,
        Failure::Other => lower_first_spec(without_errno(sentence)),
    }
}

/// Drop the ` (os error 13)` tail the OS layer appends.
fn strip_errno(s: &str) -> (r: &str)
    ensures
        r@ == without_errno(s@),
{
    match subtext::at(s, " (os error ") {
        Some(i) => {
            proof {
                subtext::lemma_at(s@, " (os error "@);
            }
            text::prefix(s, i)
        },
        None => s,
    }
}

/// Lowercase the first character only: these messages follow a colon, and
/// lowercasing the whole sentence would mangle any proper noun in it.
fn lower_first(s: &str) -> (r: String)
    ensures
        r@ == lower_first_spec(s@),
{
    if s.is_empty() {
        return s.to_owned();
    }
    let mut out = lower_char(s.get_char(0));
    out.append(text::suffix(s, 1));
    out
}

/// Why an I/O operation of a kind failed, in words.
#[must_use]
pub fn reason(kind: Failure, sentence: &str) -> (r: String)
    ensures
        r@ == reason_spec(kind, sentence@),
{
    match kind {
        Failure::NotFound => "no such file".to_owned(),
        Failure::PermissionDenied => "permission denied".to_owned(),
        Failure::IsADirectory => "is a directory".to_owned(),
        Failure::NotADirectory => "a parent of this path is not a directory".to_owned(),
        Failure::StorageFull => "the disk is full".to_owned(),
        Failure::ReadOnlyFilesystem => "the filesystem is read-only".to_owned(),
        Failure::InvalidData => "not valid UTF-8 text".to_owned(),
        Failure::Other => lower_first(strip_errno(sentence)),
    }
}

/// Why an I/O operation failed, in words rather than an errno.
///
/// `std::io::Error`'s own `Display` appends the raw OS code — `No such file or
/// directory (os error 2)` — which tells the user nothing they can act on and
/// reads like a stack trace. The kinds worth naming are named; anything else
/// falls back to the OS's own sentence with the errno stripped.
#[must_use]
pub fn io_reason(e: &std::io::Error) -> (r: String)
    ensures
        exists|sentence: Seq<char>| r@ == #[trigger] reason_spec(io_kind(*e), sentence),
{
    let kind = kind_of(e);
    let sentence = sentence_of(e);
    reason(kind, sentence.as_str())
}

/// No errno ever reaches the user, whatever the system's sentence holds.
pub proof fn no_errno_is_left(s: Seq<char>)
    ensures
        !text::contains_spec(without_errno(s), " (os error "@),
{
    let e = " (os error "@;
    reveal_strlit(" (os error ");
    subtext::lemma_at(s, e);
    let kept = without_errno(s);
    if text::contains_spec(kept, e) {
        let i = choose|i: int|
            0 <= i <= kept.len() - e.len() && #[trigger] kept.subrange(i, i + e.len()) == e;
        assert(s.subrange(i, i + e.len()) =~= kept.subrange(i, i + e.len()));
        subtext::lemma_at_first(s, e, i);
    }
}

// ---- configuration files ----

/// A count that stays at the largest one.
pub open spec fn capped(n: int) -> int {
    if n > usize::MAX {
        usize::MAX as int
    } else {
        n
    }
}

/// The lines of a file, each without a carriage return ahead of its newline.
pub open spec fn file_lines(src: Seq<char>) -> Seq<Seq<char>> {
    let ls = fmt::lines_spec(src);
    Seq::new(
        ls.len(),
        |i: int|
            if (i + 1 < ls.len() || src.last() == '\n') && ls[i].len() > 0 && ls[i].last()
                == '\r' {
                ls[i].drop_last()
            } else {
                ls[i]
            },
    )
}

/// The 1-based number and the text of the line that holds a byte, from line
/// `i` on, which begins at `offset`.
pub open spec fn locate_spec(ls: Seq<Seq<char>>, i: int, offset: int, byte: int) -> Option<
    (int, Seq<char>),
>
    decreases ls.len() - i,
{
    if i < 0 || i >= ls.len() {
        None
    } else {
        let end = capped(offset + encode_utf8(ls[i]).len() as usize);
        if byte <= end {
            Some((i + 1, ls[i]))
        } else {
            locate_spec(ls, i + 1, capped(end + 1), byte)
        }
    }
}

/// The name and what follows it in `<prefix>NAME<backtick><joiner>REST`.
pub open spec fn backticked_spec(msg: Seq<char>, prefix: Seq<char>, joiner: Seq<char>) -> Option<
    (Seq<char>, Seq<char>),
> {
    match subtext::after_spec(msg, prefix) {
        None => None,
        Some(rest) => match text::find_spec(rest, CharClass::Is('`')) {
            None => None,
            Some(i) => match subtext::after_spec(rest.skip(i + 1), joiner) {
                None => None,
                Some(tail) => Some((rest.take(i), tail)),
            },
        },
    }
}

/// A name's letters and numbers, in lower case.
pub open spec fn squash_spec(s: Seq<char>) -> Seq<char>
    decreases s.len(),
{
    if s.len() == 0 {
        Seq::empty()
    } else if is_alnum(s.last()) {
        squash_spec(s.drop_last()) + char_lower(s.last())
    } else {
        squash_spec(s.drop_last())
    }
}

/// Whether two squashed names differ only by a trailing `s`.
pub open spec fn plural_spec(a: Seq<char>, b: Seq<char>) -> bool {
    a == b.push('s') || b == a.push('s')
}

/// The names of a list as serde writes it.
pub open spec fn listed_spec(parts: Seq<Seq<char>>) -> Seq<Seq<char>>
    decreases parts.len(),
{
    if parts.len() == 0 {
        Seq::empty()
    } else {
        listed_spec(parts.drop_last()) + subtext::pieces_spec(parts.last(), " or "@).map_values(
            |c: Seq<char>| text::trim_spec(c, CharClass::Is('`')),
        )
    }
}

/// The first name that is squashed to a target, or to its plural or singular.
pub open spec fn matching_spec(names: Seq<Seq<char>>, target: Seq<char>, plural: bool) -> Option<
    Seq<char>,
>
    decreases names.len(),
{
    if names.len() == 0 {
        None
    } else if (!plural && squash_spec(names[0]) == target) || (plural && plural_spec(
        squash_spec(names[0]),
        target,
    )) {
        Some(names[0])
    } else {
        matching_spec(names.skip(1), target, plural)
    }
}

/// The valid name a typo most likely meant.
pub open spec fn suggest_spec(name: Seq<char>, valid: Seq<char>) -> Option<Seq<char>> {
    let names = listed_spec(subtext::pieces_spec(valid, ", "@));
    match matching_spec(names, squash_spec(name), false) {
        Some(s) => Some(s),
        None => matching_spec(names, squash_spec(name), true),
    }
}

/// The settings of the `[add]` section.
pub open spec fn add_settings_spec() -> Seq<Seq<char>> {
    seq![
        "format_file"@,
        "insertion"@,
        "strict"@,
        "half_life_days"@,
        "account_matching"@,
        "description_matching"@,
        "default_commodity"@,
        "equity_conversion"@,
        "equity_conversion_account"@,
    ]
}

/// serde's name for a type, in the config file's own terms.
pub open spec fn want_spec(want: Seq<char>) -> Seq<char> {
    if want == "a boolean"@ {
        "true or false"@
    } else if want == "a string"@ {
        "text in quotes"@
    } else if want == "a sequence"@ {
        "a list"@
    } else if want == "a map"@ {
        "a table"@
    } else if want == "an integer"@ || want == "a floating point number"@ {
        "a number"@
    } else {
        want
    }
}

/// serde's rendering of the value it found, likewise.
pub open spec fn found_spec(found: Seq<char>) -> Seq<char> {
    match text::rfind_spec(found, CharClass::Is(' ')) {
        None => found,
        Some(i) => {
            let kind = found.take(i);
            let value = found.skip(i + 1);
            let bare = text::trim_spec(value, CharClass::Is('`'));
            if kind == "string"@ {
                "the text "@ + value
            } else if kind == "boolean"@ {
                "the value "@ + bare
            } else if text::contains_spec(kind, "integer"@) || text::contains_spec(
                kind,
                "number"@,
            ) {
                "the number "@ + bare
            } else {
                found
            }
        },
    }
}

/// A message in the words of the config file, and a hint.
pub open spec fn humanize_spec(msg: Seq<char>) -> (Seq<char>, Option<Seq<char>>) {
    if let Some(p) = backticked_spec(msg, "unknown field `"@, ", expected one of "@) {
        (
            "unknown setting `"@ + p.0 + "`"@,
            Some(
                match suggest_spec(p.0, p.1) {
                    Some(near) => "did you mean `"@ + near + "`?"@,
                    None => match matching_spec(add_settings_spec(), squash_spec(p.0), false) {
                        Some(setting) => "`"@ + setting + "` belongs in the [add] section"@,
                        None => "valid settings are "@ + p.1,
                    },
                },
            ),
        )
    } else if let Some(p) = backticked_spec(msg, "unknown variant `"@, ", expected "@) {
        let list = match subtext::after_spec(p.1, "one of "@) {
            Some(rest) => rest,
            None => p.1,
        };
        (
            "`"@ + p.0 + "` is not a valid value"@,
            Some(
                match suggest_spec(p.0, list) {
                    Some(near) => "did you mean `"@ + near + "`?"@,
                    None => "expected "@ + p.1,
                },
            ),
        )
    } else {
        match subtext::after_spec(msg, "invalid type: "@) {
            None => (msg, None),
            Some(rest) => match subtext::last_at_spec(rest, ", expected "@) {
                None => (msg, None),
                Some(i) => (
                    "expected "@ + want_spec(rest.skip(i + 11)) + ", but found "@ + found_spec(
                        rest.take(i),
                    ),
                    None,
                ),
            },
        }
    }
}

/// A configuration problem: where, what, the line, and a hint.
pub open spec fn config_error_spec(
    src: Seq<char>,
    origin: Seq<char>,
    msg: Seq<char>,
    at: Option<int>,
) -> Seq<char> {
    let said = humanize_spec(msg);
    let place = match at {
        Some(byte) => locate_spec(file_lines(src), 0, 0, byte),
        None => None,
    };
    let located = match place {
        Some(p) => origin + ", line "@ + text::digits_spec(p.0 as nat) + ": "@ + said.0
            + "\n      "@ + text::trim_spec(p.1, CharClass::White),
        None => origin + ": "@ + said.0,
    };
    match said.1 {
        Some(hint) => located + "\n  ("@ + hint + ")"@,
        None => located,
    }
}

/// The 1-based line number holding `byte`, and that line's text.
fn locate(src: &str, byte: usize) -> (r: Option<(usize, String)>)
    ensures
        (match r {
            Some(p) => Some((p.0 as int, p.1@)),
            None => None,
        }) == locate_spec(file_lines(src@), 0, 0, byte as int),
{
    let ls = fmt::lines(src);
    let ghost raw = fmt::lines_spec(src@);
    let ghost all = file_lines(src@);
    let count: usize = ls.len();
    assert(raw.len() == count);
    let n: usize = src.unicode_len();
    let closed = n > 0 && src.get_char(n - 1) == '\n';
    let mut offset: usize = 0;
    let mut i: usize = 0;
    while i < count
        invariant
            i <= count,
            count == ls@.len(),
            raw == text::strs(ls@),
            raw == fmt::lines_spec(src@),
            all == file_lines(src@),
            n == src@.len(),
            closed == (n > 0 && src@[n - 1] == '\n'),
            locate_spec(all, 0, 0, byte as int) == locate_spec(
                all,
                i as int,
                offset as int,
                byte as int,
            ),
        decreases count - i,
    {
        let l = ls[i];
        assert(raw[i as int] == l@);
        let m: usize = l.unicode_len();
        assert(n > 0) by {
            if n == 0 {
                assert(raw.len() == 0);
            }
        }
        assert(src@.last() == src@[n - 1]);
        let line = if (i + 1 < count || closed) && m > 0 && l.get_char(m - 1) == '\r' {
            text::prefix(l, m - 1)
        } else {
            l
        };
        assert(line@ =~= all[i as int]);
        let len: usize = line.len();
        let end: usize = if len > usize::MAX - offset {
            usize::MAX
        } else {
            offset + len
        };
        if byte <= end {
            return Some((i + 1, line.to_owned()));
        }
        offset = if end == usize::MAX {
            end
        } else {
            end + 1
        };
        i = i + 1;
    }
    None
}

/// Pull `NAME` and the trailing `REST` out of a
/// `<prefix>NAME<backtick><joiner>REST` message.
fn parse_backticked<'a>(msg: &'a str, prefix: &str, joiner: &str) -> (r: Option<(&'a str, &'a str)>)
    ensures
        (match r {
            Some(p) => Some((p.0@, p.1@)),
            None => None,
        }) == backticked_spec(msg@, prefix@, joiner@),
{
    match subtext::after(msg, prefix) {
        None => None,
        Some(rest) => match text::find(rest, CharClass::Is('`')) {
            None => None,
            Some(i) => {
                proof {
                    text::lemma_run(rest@, CharClass::Is('`'), false);
                }
                match subtext::after(text::suffix(rest, i + 1), joiner) {
                    None => None,
                    Some(tail) => Some((text::prefix(rest, i), tail)),
                }
            },
        },
    }
}

fn squash(s: &str) -> (r: String)
    ensures
        r@ == squash_spec(s@),
{
    let v = text::chars(s);
    let mut out = String::new();
    let mut i: usize = 0;
    assert(s@.take(0) =~= Seq::empty());
    while i < v.len()
        invariant
            i <= v@.len(),
            v@ == s@,
            out@ == squash_spec(s@.take(i as int)),
        decreases v@.len() - i,
    {
        assert(s@.take(i + 1).drop_last() =~= s@.take(i as int));
        assert(s@.take(i + 1).last() == v@[i as int]);
        if v[i].is_alphanumeric() {
            out.append(lower_char(v[i]).as_str());
        }
        i = i + 1;
    }
    assert(s@.take(v@.len() as int) =~= s@);
    out
}

/// Whether two squashed names differ only by a trailing `s`.
fn plural_of(a: &str, b: &str) -> (r: bool)
    ensures
        r == plural_spec(a@, b@),
{
    let bs = text::cat(b, "s");
    let as_ = text::cat(a, "s");
    proof {
        reveal_strlit("s");
        assert(b@ + "s"@ =~= b@.push('s'));
        assert(a@ + "s"@ =~= a@.push('s'));
    }
    text::same(a, bs.as_str()) || text::same(b, as_.as_str())
}

/// The names of a list as serde writes it.
fn listed(valid: &str) -> (r: Vec<&str>)
    ensures
        text::strs(r@) == listed_spec(subtext::pieces_spec(valid@, ", "@)),
{
    proof {
        reveal_strlit(", ");
        reveal_strlit(" or ");
    }
    // serde joins two alternatives with ` or `, more than two with `, `.
    let parts = subtext::pieces(valid, ", ");
    let ghost all = text::strs(parts@);
    let mut out: Vec<&str> = Vec::new();
    let mut i: usize = 0;
    assert(text::strs(out@) =~= listed_spec(all.take(0)));
    while i < parts.len()
        invariant
            i <= parts@.len(),
            all == text::strs(parts@),
            " or "@.len() > 0,
            text::strs(out@) == listed_spec(all.take(i as int)),
        decreases parts@.len() - i,
    {
        assert(all.take(i + 1).drop_last() =~= all.take(i as int));
        assert(all.take(i + 1).last() == parts@[i as int]@);
        let ghost before = text::strs(out@);
        let more = subtext::pieces(parts[i], " or ");
        let ghost want = text::strs(more@).map_values(
            |c: Seq<char>| text::trim_spec(c, CharClass::Is('`')),
        );
        let mut j: usize = 0;
        assert(before + want.take(0) =~= before);
        while j < more.len()
            invariant
                j <= more@.len(),
                want == text::strs(more@).map_values(
                    |c: Seq<char>| text::trim_spec(c, CharClass::Is('`')),
                ),
                text::strs(out@) == before + want.take(j as int),
            decreases more@.len() - j,
        {
            let ghost mid = text::strs(out@);
            let name = text::trim(more[j], CharClass::Is('`'));
            assert(text::strs(more@)[j as int] == more@[j as int]@);
            assert(want[j as int] == name@);
            out.push(name);
            assert(text::strs(out@) =~= mid.push(name@));
            assert(want.take(j + 1) =~= want.take(j as int).push(name@));
            assert(before + want.take(j + 1) =~= mid.push(name@));
            j = j + 1;
        }
        assert(want.take(want.len() as int) =~= want);
        i = i + 1;
    }
    assert(all.take(all.len() as int) =~= all);
    out
}

/// The first name that is squashed to a target, or to its plural or singular.
fn matching<'a>(names: &[&'a str], target: &str, plural: bool) -> (r: Option<&'a str>)
    ensures
        text::opt_str(r) == matching_spec(text::strs(names@), target@, plural),
{
    let ghost all = text::strs(names@);
    let mut i: usize = 0;
    assert(all.skip(0) =~= all);
    while i < names.len()
        invariant
            i <= names@.len(),
            all == text::strs(names@),
            matching_spec(all, target@, plural) == matching_spec(
                all.skip(i as int),
                target@,
                plural,
            ),
        decreases names@.len() - i,
    {
        assert(all.skip(i as int)[0] == names@[i as int]@);
        let s = squash(names[i]);
        let hit = if plural {
            plural_of(s.as_str(), target)
        } else {
            text::same(s.as_str(), target)
        };
        if hit {
            return Some(names[i]);
        }
        assert(all.skip(i as int).skip(1) =~= all.skip(i + 1));
        i = i + 1;
    }
    None
}

/// The valid setting or value a typo most likely meant. Deliberately narrow:
/// it matches on separators, case, and a missing or spare trailing `s`, which
/// covers the mistakes people actually make (`formatfile`, `formatFile`,
/// `format-file`, `payee` for `payees`) and never guesses wildly.
#[must_use]
pub fn suggest<'a>(name: &str, valid: &'a str) -> (r: Option<&'a str>)
    ensures
        text::opt_str(r) == suggest_spec(name@, valid@),
{
    let names = listed(valid);
    let target = squash(name);
    match matching(names.as_slice(), target.as_str(), false) {
        Some(s) => Some(s),
        None => matching(names.as_slice(), target.as_str(), true),
    }
}

/// The `[add]` setting an unknown top-level key is, written in the wrong
/// place. Matched the same forgiving way as [`suggest`], so `formatFile` at
/// the top level is pointed at the section rather than at itself.
fn misplaced(name: &str) -> (r: Option<&'static str>)
    ensures
        text::opt_str(r) == matching_spec(add_settings_spec(), squash_spec(name@), false),
{
    let mut names: Vec<&'static str> = Vec::new();
    names.push("format_file");
    names.push("insertion");
    names.push("strict");
    names.push("half_life_days");
    names.push("account_matching");
    names.push("description_matching");
    names.push("default_commodity");
    names.push("equity_conversion");
    names.push("equity_conversion_account");
    assert(text::strs(names@) =~= add_settings_spec());
    let target = squash(name);
    matching(names.as_slice(), target.as_str(), false)
}

/// serde's name for a type, in the config file's own terms.
fn describe_want(want: &str) -> (r: String)
    ensures
        r@ == want_spec(want@),
{
    if text::same(want, "a boolean") {
        "true or false".to_owned()
    } else if text::same(want, "a string") {
        "text in quotes".to_owned()
    } else if text::same(want, "a sequence") {
        "a list".to_owned()
    } else if text::same(want, "a map") {
        "a table".to_owned()
    } else if text::same(want, "an integer") || text::same(want, "a floating point number") {
        "a number".to_owned()
    } else {
        want.to_owned()
    }
}

/// serde's rendering of the value it found, likewise.
fn describe_found(found: &str) -> (r: String)
    ensures
        r@ == found_spec(found@),
{
    match text::rfind(found, CharClass::Is(' ')) {
        None => found.to_owned(),
        Some(i) => {
            proof {
                text::lemma_run_back(found@, CharClass::Is(' '), false);
            }
            let kind = text::prefix(found, i);
            let value = text::suffix(found, i + 1);
            let bare = text::trim(value, CharClass::Is('`'));
            if text::same(kind, "string") {
                text::cat("the text ", value)
            } else if text::same(kind, "boolean") {
                text::cat("the value ", bare)
            } else if text::contains(kind, "integer") || text::contains(kind, "number") {
                text::cat("the number ", bare)
            } else {
                found.to_owned()
            }
        },
    }
}

/// Rewrite one serde/toml message into a message plus an optional hint.
/// Anything unrecognised — TOML's own syntax complaints, which are already
/// phrased in terms of the file — passes through untouched.
fn humanize(msg: &str) -> (r: (String, Option<String>))
    ensures
        (r.0@, text::opt_text(r.1)) == humanize_spec(msg@),
{
    if let Some(p) = parse_backticked(msg, "unknown field `", ", expected one of ") {
        // A near-miss against the settings valid *here* wins: inside `[add]`,
        // `formatfile` is a typo for a setting of that table, not a setting
        // written in the wrong table.
        let hint = match suggest(p.0, p.1) {
            Some(near) => text::cat3("did you mean `", near, "`?"),
            None => match misplaced(p.0) {
                Some(setting) => text::cat3("`", setting, "` belongs in the [add] section"),
                None => text::cat("valid settings are ", p.1),
            },
        };
        return (text::cat3("unknown setting `", p.0, "`"), Some(hint));
    }
    if let Some(p) = parse_backticked(msg, "unknown variant `", ", expected ") {
        // `expected one of `a`, `b`` for a multi-variant enum, plain
        // ``a`` for a single one; the near-miss reads either.
        let list = match subtext::after(p.1, "one of ") {
            Some(rest) => rest,
            None => p.1,
        };
        let hint = match suggest(p.0, list) {
            Some(near) => text::cat3("did you mean `", near, "`?"),
            None => text::cat("expected ", p.1),
        };
        return (text::cat3("`", p.0, "` is not a valid value"), Some(hint));
    }
    if let Some(rest) = subtext::after(msg, "invalid type: ") {
        if let Some(i) = subtext::last_at(rest, ", expected ") {
            proof {
                reveal_strlit(", expected ");
            }
            let whole: usize = rest.unicode_len();
            assert(i + 11 <= whole);
            let want = describe_want(text::suffix(rest, i + 11));
            let found = describe_found(text::prefix(rest, i));
            let mut m = text::cat3("expected ", want.as_str(), ", but found ");
            m.append(found.as_str());
            return (m, None);
        }
    }
    (msg.to_owned(), None)
}

/// A complaint about a place in a configuration file, phrased for someone
/// editing the file: a line number, a plain echo of the line, and the words
/// the file itself uses.
#[must_use]
pub fn config_error(src: &str, origin: &str, message: &str, at: Option<usize>) -> (r: String)
    ensures
        r@ == config_error_spec(
            src@,
            origin@,
            message@,
            match at {
                Some(n) => Some(n as int),
                None => None,
            },
        ),
{
    let (said, hint) = humanize(message);
    let place = match at {
        Some(byte) => locate(src, byte),
        None => None,
    };
    let mut out = match place {
        Some(p) => {
            let mut s = text::cat3(origin, ", line ", text::digits(p.0).as_str());
            s.append(": ");
            s.append(said.as_str());
            s.append("\n      ");
            s.append(text::trim(p.1.as_str(), CharClass::White));
            s
        },
        None => text::cat3(origin, ": ", said.as_str()),
    };
    if let Some(h) = hint {
        out.append("\n  (");
        out.append(h.as_str());
        out.append(")");
    }
    out
}

/// A configuration problem phrased for someone editing a TOML file, not for
/// someone reading serde's internals.
///
/// Replaces the `toml` crate's rustc-style diagnostic — a `|` gutter with a
/// caret run under the offending span — with a line number and a plain echo of
/// the line, and rewrites serde's vocabulary (`unknown field`, `invalid type`,
/// `unknown variant`) into the words the config file itself uses.
#[must_use]
pub fn toml_error(src: &str, origin: &str, e: &toml::de::Error) -> (r: String)
    ensures
        r@ == config_error_spec(
            src@,
            origin@,
            toml_message(*e),
            match toml_start(*e) {
                Some(n) => Some(n as int),
                None => None,
            },
        ),
{
    let message = complaint_of(e);
    let at = place_of(e);
    config_error(src, origin, message.as_str(), at)
}

} // verus!
