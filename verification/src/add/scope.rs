//! Account-name rewriting: `apply account` and `alias`.
//!
//! Both are in effect from their line to the end of their file, inherited by
//! included files, discarded when the include returns. An unclosed region is
//! legal and runs to end of file.
//!
//! - nested `apply account`s **stack**, joined with `:`; `end apply account`
//!   pops exactly one level
//! - the join is blind, so a prefix written `assets:` yields `assets::checking`
//! - `apply account` prefixes `account` *declarations* too, not only postings
//! - `alias OLD=NEW` matches the whole name or a **segment-bounded leading
//!   prefix**: `bank` and `bank:sub` match `alias bank=X`; `mybank`, `bankish`
//!   and `a:bank` do not
//! - **aliases apply in reverse declaration order**, each to the running
//!   result — the most recently declared goes first
//! - `apply account` is applied **first**; aliases see the prefixed name
//!
//! Going the other way — from the name the user picked to the text that
//! belongs in the file — is **search and verify**, never inversion: a regex
//! alias is not generally invertible, so [`Scope::spell`] generates candidate
//! spellings and runs each back through [`Scope::resolve`], returning only one
//! that demonstrably reads back as the intended account.

use vstd::prelude::*;
use vstd::string::*;
use vstd::std_specs::cmp::PartialEqSpecImpl;
use regex::Regex;
use crate::subtext;
use crate::text::{self, CharClass};

verus! {

/// Where a directive was opened, for error messages.
#[derive(Debug, Clone, Copy, PartialEq, Eq, Structural)]
pub struct Origin {
    /// Index of the file among the files of the journal.
    pub file: usize,
    /// 1-based line within that file.
    pub line: usize,
}

impl Default for Origin {
    fn default() -> (r: Self)
        ensures
            r.file == 0,
            r.line == 0,
    {
        Origin { file: 0, line: 0 }
    }
}

// ---- regular expressions ----

/// Whether `regex` accepts a text as a pattern.
pub uninterp spec fn is_regex(pattern: Seq<char>) -> bool;

/// A text with every match of a pattern replaced, as `regex` does it.
pub uninterp spec fn regex_replaced(
    pattern: Seq<char>,
    name: Seq<char>,
    repl: Seq<char>,
) -> Seq<char>;

/// `Regex::new` of `regex`: whether the pattern compiles, which the pattern
/// alone decides.
#[verifier::external_body]
fn compiles(pattern: &str) -> (r: bool)
    ensures
        r == is_regex(pattern@),
{
    Regex::new(pattern).is_ok()
}

/// `Regex::replace_all` of `regex`, with the pattern compiled first: the name
/// with every match replaced, where `$` in the replacement refers to a group.
/// The pattern, the name and the replacement decide the result.
#[verifier::external_body]
fn replace_all(pattern: &str, name: &str, repl: &str) -> (r: String)
    requires
        is_regex(pattern@),
    ensures
        r@ == regex_replaced(pattern@, name@, repl@),
{
    match Regex::new(pattern) {
        Ok(re) => re.replace_all(name, repl).into_owned(),
        Err(_) => name.to_owned(),
    }
}

// ---- one alias ----

/// What an alias rewrites.
#[verifier::ext_equal]
pub enum Rule {
    /// A whole name or a leading part of one.
    Exact { old: Seq<char>, new: Seq<char> },
    /// Every match of a pattern.
    Pattern { pattern: Seq<char>, repl: Seq<char> },
}

/// An `alias` directive: its text, what it rewrites and where it stands.
#[verifier::ext_equal]
pub struct Rewrite {
    pub raw: Seq<char>,
    pub rule: Rule,
    pub origin: Origin,
}

/// The characters that mean something in a pattern.
pub open spec fn is_syntax(c: char) -> bool {
    c == '\\' || c == '.' || c == '[' || c == ']' || c == '{' || c == '}' || c == '(' || c == ')'
        || c == '*' || c == '+' || c == '?' || c == '|' || c == '^' || c == '$'
}

/// A pattern without its `^` and `$` anchors.
pub open spec fn unanchored(pattern: Seq<char>) -> Seq<char> {
    let front = if pattern.len() > 0 && pattern[0] == '^' {
        pattern.skip(1)
    } else {
        pattern
    };
    if front.len() > 0 && front.last() == '$' {
        front.drop_last()
    } else {
        front
    }
}

/// The literal text of a pattern that is nothing but a literal, with `^` and
/// `$` anchors stripped.
pub open spec fn pattern_literal_spec(pattern: Seq<char>) -> Option<Seq<char>> {
    let body = unanchored(pattern);
    if body.len() > 0 && !(exists|i: int| 0 <= i < body.len() && #[trigger] is_syntax(body[i])) {
        Some(body)
    } else {
        None
    }
}

/// A replacement with `\1` written as `${1}`, `\\` as `\` and `$` as `$$`.
pub open spec fn backrefs_spec(repl: Seq<char>) -> Seq<char>
    decreases repl.len(),
{
    if repl.len() == 0 {
        Seq::empty()
    } else if repl[0] == '$' {
        seq!['$', '$'] + backrefs_spec(repl.skip(1))
    } else if repl[0] != '\\' {
        seq![repl[0]] + backrefs_spec(repl.skip(1))
    } else if repl.len() > 1 && text::is_digit(repl[1]) {
        let n = text::run_spec(repl.skip(1), CharClass::Digit, true);
        proof {
            text::lemma_run(repl.skip(1), CharClass::Digit, true);
        }
        seq!['$', '{'] + repl.subrange(1, 1 + n) + seq!['}'] + backrefs_spec(repl.skip(1 + n))
    } else if repl.len() > 1 && repl[1] == '\\' {
        seq!['\\'] + backrefs_spec(repl.skip(2))
    } else {
        seq!['\\'] + backrefs_spec(repl.skip(1))
    }
}

/// What the argument of an `alias` directive rewrites, if it can be used.
pub open spec fn rule_spec(arg: Seq<char>) -> Option<Rule> {
    let raw = text::trim_spec(arg, CharClass::White);
    if raw.len() > 0 && raw[0] == '/' {
        let body = raw.skip(1);
        match subtext::last_at_spec(body, seq!['/', '=']) {
            None => None,
            Some(cut) => if is_regex(body.take(cut)) {
                Some(
                    Rule::Pattern {
                        pattern: body.take(cut),
                        repl: backrefs_spec(body.skip(cut + 2)),
                    },
                )
            } else {
                None
            },
        }
    } else {
        match text::find_spec(raw, CharClass::Is('=')) {
            None => None,
            Some(i) => Some(
                Rule::Exact {
                    old: text::trim_spec(raw.take(i), CharClass::White),
                    new: text::trim_spec(raw.skip(i + 1), CharClass::White),
                },
            ),
        }
    }
}

/// A name with a whole-name or segment-bounded leading `from` written as `to`.
pub open spec fn exact_spec(name: Seq<char>, from: Seq<char>, to: Seq<char>) -> Option<Seq<char>> {
    if name == from {
        Some(to)
    } else {
        match subtext::after_spec(name, from) {
            Some(rest) => if rest.len() > 0 && rest[0] == ':' {
                Some(to + rest)
            } else {
                None
            },
            None => None,
        }
    }
}

impl Rule {
    /// A name rewritten.
    pub open spec fn apply(self, name: Seq<char>) -> Seq<char> {
        match self {
            Rule::Exact { old, new } => match exact_spec(name, old, new) {
                Some(s) => s,
                None => name,
            },
            Rule::Pattern { pattern, repl } => regex_replaced(pattern, name, repl),
        }
    }

    /// Names that might be rewritten to a target.
    pub open spec fn invert(self, target: Seq<char>) -> Seq<Seq<char>> {
        match self {
            Rule::Exact { old, new } => match exact_spec(target, new, old) {
                Some(s) => seq![s],
                None => Seq::empty(),
            },
            Rule::Pattern { pattern, repl } => match pattern_literal_spec(pattern) {
                None => Seq::empty(),
                Some(lit) => if repl.len() == 0 || text::any_spec(
                    subtext::replaced_spec(repl, seq!['$', '$'], Seq::empty()),
                    CharClass::Is('$'),
                ) {
                    Seq::empty()
                } else {
                    let all = subtext::replaced_spec(target, repl, lit);
                    let first = subtext::replaced_once_spec(target, repl, lit);
                    if all == first {
                        seq![all]
                    } else {
                        seq![all, first]
                    }
                },
            },
        }
    }
}

/// One `alias` directive.
#[derive(Debug)]
pub struct Alias {
    /// The directive's argument as written — the identity used for equality.
    raw: String,
    kind: Kind,
    /// Where it was declared.
    pub(crate) origin: Origin,
}

#[derive(Debug)]
enum Kind {
    /// `alias OLD=NEW`.
    Exact { old: String, new: String },
    /// `alias /REGEX/=REPLACEMENT`.
    Pattern { pattern: String, repl: String },
}

impl Kind {
    spec fn rule(self) -> Rule {
        match self {
            Kind::Exact { old, new } => Rule::Exact { old: old@, new: new@ },
            Kind::Pattern { pattern, repl } => Rule::Pattern { pattern: pattern@, repl: repl@ },
        }
    }
}

impl View for Alias {
    type V = Rewrite;

    closed spec fn view(&self) -> Rewrite {
        Rewrite { raw: self.raw@, rule: self.kind.rule(), origin: self.origin }
    }
}

impl PartialEq for Alias {
    fn eq(&self, other: &Self) -> (r: bool) {
        text::same(self.raw.as_str(), other.raw.as_str()) && self.origin == other.origin
    }
}

impl PartialEqSpecImpl for Alias {
    open spec fn obeys_eq_spec() -> bool {
        true
    }

    open spec fn eq_spec(&self, other: &Self) -> bool {
        self@.raw == other@.raw && self@.origin == other@.origin
    }
}

impl Eq for Alias {

}

impl Clone for Alias {
    fn clone(&self) -> (r: Self)
        ensures
            r@ == self@,
    {
        self.duplicate()
    }
}

/// The literal text of a pattern that is nothing but a literal, with `^` and
/// `$` anchors stripped. `None` for anything with real regex syntax in it.
fn pattern_literal(pattern: &str) -> (r: Option<&str>)
    ensures
        text::opt_str(r) == pattern_literal_spec(pattern@),
{
    let front = if text::starts_in(pattern, CharClass::Is('^')) {
        text::suffix(pattern, 1)
    } else {
        pattern
    };
    let n: usize = front.unicode_len();
    let body = if n > 0 && front.get_char(n - 1) == '$' {
        text::prefix(front, n - 1)
    } else {
        front
    };
    assert(front@.len() > 0 ==> front@.take(front@.len() - 1) =~= front@.drop_last());
    if body.is_empty() {
        return None;
    }
    let v = text::chars(body);
    let mut i: usize = 0;
    while i < v.len()
        invariant
            i <= v@.len(),
            v@ == body@,
            body@ == unanchored(pattern@),
            forall|j: int| 0 <= j < i ==> !#[trigger] is_syntax(body@[j]),
        decreases v@.len() - i,
    {
        let c = v[i];
        if c == '\\' || c == '.' || c == '[' || c == ']' || c == '{' || c == '}' || c == '('
            || c == ')' || c == '*' || c == '+' || c == '?' || c == '|' || c == '^' || c == '$' {
            assert(is_syntax(body@[i as int]));
            return None;
        }
        i = i + 1;
    }
    Some(body)
}

/// Translate hledger's `\1` backreferences into the `${1}` form the `regex`
/// crate expects. A doubled `\\` escapes a literal backslash.
fn backrefs(repl: &str) -> (r: String)
    ensures
        r@ == backrefs_spec(repl@),
{
    let mut out = String::new();
    let mut rest: &str = repl;
    assert(out@ + backrefs_spec(rest@) =~= backrefs_spec(repl@));
    while !rest.is_empty()
        invariant
            out@ + backrefs_spec(rest@) == backrefs_spec(repl@),
        decreases rest@.len(),
    {
        let ghost before = out@;
        let ghost all = rest@;
        let c = rest.get_char(0);
        if c != '\\' {
            // `$` is a substitution sigil for `regex` but a literal for
            // hledger, so it has to be escaped on the way through.
            if c == '$' {
                out.push('$');
            }
            out.push(c);
            rest = text::suffix(rest, 1);
            assert(out@ + backrefs_spec(rest@) =~= before + backrefs_spec(all));
        } else {
            let tail = text::suffix(rest, 1);
            let digits = text::run(tail, CharClass::Digit, true);
            proof {
                text::lemma_run(tail@, CharClass::Digit, true);
            }
            if digits > 0 {
                assert(text::is_digit(all[1]));
                out.push('$');
                out.push('{');
                out.append(text::prefix(tail, digits));
                out.push('}');
                rest = text::suffix(tail, digits);
                assert(tail@.take(digits as int) =~= all.subrange(1, 1 + digits));
                assert(rest@ =~= all.skip(1 + digits));
                assert(out@ + backrefs_spec(rest@) =~= before + backrefs_spec(all));
            } else {
                assert(tail@.len() > 0 ==> !text::is_digit(all[1]));
                out.push('\\');
                rest = if text::starts_in(tail, CharClass::Is('\\')) {
                    text::suffix(tail, 1)
                } else {
                    tail
                };
                assert(all.len() > 1 ==> all.skip(1).skip(1) =~= all.skip(2));
                assert(out@ + backrefs_spec(rest@) =~= before + backrefs_spec(all));
            }
        }
    }
    assert(out@ =~= out@ + backrefs_spec(rest@));
    out
}

/// A name with a whole-name or segment-bounded leading `from` written as `to`.
fn exact(name: &str, from: &str, to: &str) -> (r: Option<String>)
    ensures
        text::opt_text(r) == exact_spec(name@, from@, to@),
{
    if text::same(name, from) {
        return Some(to.to_owned());
    }
    match subtext::after(name, from) {
        Some(rest) => if text::starts_in(rest, CharClass::Is(':')) {
            Some(text::cat(to, rest))
        } else {
            None
        },
        None => None,
    }
}

/// The rewrites of a list of aliases.
pub open spec fn rewrites(v: Seq<Alias>) -> Seq<Rewrite> {
    v.map_values(|a: Alias| a@)
}

impl Alias {
    #[verifier::type_invariant]
    spec fn usable(self) -> bool {
        self.kind matches Kind::Pattern { pattern, .. } ==> is_regex(pattern@)
    }

    /// Parse an `alias` directive argument. `None` when it has no `=`, or the
    /// regex does not compile — an unusable alias is ignored rather than
    /// fatal, since `add` is an entry tool, not a validator.
    #[must_use]
    pub fn parse(arg: &str, origin: Origin) -> (r: Option<Self>)
        ensures
            match (r, rule_spec(arg@)) {
                (Some(a), Some(rule)) => a@ == (Rewrite {
                    raw: text::trim_spec(arg@, CharClass::White),
                    rule,
                    origin,
                }),
                (None, None) => true,
                _ => false,
            },
    {
        let raw = text::trim(arg, CharClass::White);
        let kind = if text::starts_in(raw, CharClass::Is('/')) {
            // `/REGEX/=REPLACEMENT` — the pattern ends at the last `/` that is
            // followed by `=`, so a `/` inside the pattern is not a boundary.
            let body = text::suffix(raw, 1);
            proof {
                reveal_strlit("/=");
                assert("/="@ =~= seq!['/', '=']);
            }
            match subtext::last_at(body, "/=") {
                None => {
                    return None;
                },
                Some(cut) => {
                    let whole: usize = body.unicode_len();
                    assert(cut + 2 <= whole);
                    let pattern = text::prefix(body, cut);
                    let repl = text::suffix(body, cut + 2);
                    if !compiles(pattern) {
                        return None;
                    }
                    Kind::Pattern { pattern: pattern.to_owned(), repl: backrefs(repl) }
                },
            }
        } else {
            match text::find(raw, CharClass::Is('=')) {
                None => {
                    return None;
                },
                Some(i) => {
                    proof {
                        text::lemma_run(raw@, CharClass::Is('='), false);
                    }
                    Kind::Exact {
                        old: text::trim(text::prefix(raw, i), CharClass::White).to_owned(),
                        new: text::trim(text::suffix(raw, i + 1), CharClass::White).to_owned(),
                    }
                },
            }
        };
        Some(Alias { raw: raw.to_owned(), kind, origin })
    }

    /// A copy of the alias.
    pub fn duplicate(&self) -> (r: Self)
        ensures
            r@ == self@,
    {
        proof {
            use_type_invariant(self);
        }
        let kind = match &self.kind {
            Kind::Exact { old, new } => Kind::Exact {
                old: old.as_str().to_owned(),
                new: new.as_str().to_owned(),
            },
            Kind::Pattern { pattern, repl } => Kind::Pattern {
                pattern: pattern.as_str().to_owned(),
                repl: repl.as_str().to_owned(),
            },
        };
        Alias { raw: self.raw.as_str().to_owned(), kind, origin: self.origin }
    }

    /// Rewrite one account name through this alias.
    #[must_use]
    pub fn apply(&self, name: &str) -> (r: String)
        ensures
            r@ == self@.rule.apply(name@),
    {
        proof {
            use_type_invariant(self);
        }
        match &self.kind {
            Kind::Exact { old, new } => match exact(name, old.as_str(), new.as_str()) {
                Some(s) => s,
                None => name.to_owned(),
            },
            Kind::Pattern { pattern, repl } => replace_all(pattern.as_str(), name, repl.as_str()),
        }
    }

    /// Candidate names that might produce `target` through this alias.
    ///
    /// Hints only — every one is verified against [`Scope::resolve`] before it
    /// can be written, so a wrong guess here costs a failed check, never a
    /// wrong account in the file. Regex patterns are inverted only when they
    /// are plain literals; anything else contributes nothing.
    fn invert(&self, target: &str) -> (r: Vec<String>)
        ensures
            text::texts(r@) == self@.rule.invert(target@),
    {
        let mut out: Vec<String> = Vec::new();
        match &self.kind {
            Kind::Exact { old, new } => {
                if let Some(s) = exact(target, new.as_str(), old.as_str()) {
                    out.push(s);
                }
            },
            Kind::Pattern { pattern, repl } => {
                if let Some(lit) = pattern_literal(pattern.as_str()) {
                    proof {
                        reveal_strlit("$$");
                        reveal_strlit("");
                        assert("$$"@ =~= seq!['$', '$']);
                        assert(""@ =~= Seq::<char>::empty());
                    }
                    // A replacement carrying backreferences cannot be undone by
                    // substitution; `$$` is the escaped literal `$` and is fine.
                    let plain = subtext::replaced(repl.as_str(), "$$", "");
                    if !repl.as_str().is_empty() && !text::any(
                        plain.as_str(),
                        CharClass::Is('$'),
                    ) {
                        let all = subtext::replaced(target, repl.as_str(), lit);
                        let first = subtext::replaced_once(target, repl.as_str(), lit);
                        let once = text::same(all.as_str(), first.as_str());
                        out.push(all);
                        if !once {
                            out.push(first);
                        }
                    }
                }
            },
        }
        assert(text::texts(out@) =~= self@.rule.invert(target@));
        out
    }
}

// ---- the scope ----

/// An `apply account` prefix and where it stands.
#[verifier::ext_equal]
pub struct Prefix {
    pub text: Seq<char>,
    pub origin: Origin,
}

/// The directives in effect: prefixes outermost first, aliases in the order of
/// their declaration.
#[verifier::ext_equal]
pub struct Rewrites {
    pub apply: Seq<Prefix>,
    pub aliases: Seq<Rewrite>,
}

/// The prefixes joined with `:`.
pub open spec fn joined(apply: Seq<Prefix>) -> Seq<char> {
    text::join_spec(apply.map_values(|p: Prefix| p.text), seq![':'])
}

/// A name run through aliases, the last declared first.
pub open spec fn through(aliases: Seq<Rewrite>, name: Seq<char>) -> Seq<char>
    decreases aliases.len(),
{
    if aliases.len() == 0 {
        name
    } else {
        through(aliases.drop_last(), aliases.last().rule.apply(name))
    }
}

/// What the aliases propose for a target, in the order of their declaration.
pub open spec fn inverted(aliases: Seq<Rewrite>, target: Seq<char>) -> Seq<Seq<char>>
    decreases aliases.len(),
{
    if aliases.len() == 0 {
        Seq::empty()
    } else {
        inverted(aliases.drop_last(), target) + aliases.last().rule.invert(target)
    }
}

/// A list with the new ones of further texts behind it.
pub open spec fn with_new(seen: Seq<Seq<char>>, more: Seq<Seq<char>>) -> Seq<Seq<char>>
    decreases more.len(),
{
    if more.len() == 0 {
        seen
    } else {
        let before = with_new(seen, more.drop_last());
        if before.contains(more.last()) {
            before
        } else {
            before.push(more.last())
        }
    }
}

impl Rewrites {
    pub open spec fn none() -> Rewrites {
        Rewrites { apply: Seq::empty(), aliases: Seq::empty() }
    }

    /// Whether anything here rewrites account names.
    pub open spec fn active(self) -> bool {
        self.apply.len() > 0 || self.aliases.len() > 0
    }

    pub open spec fn prefix(self) -> Option<Seq<char>> {
        if self.apply.len() == 0 {
            None
        } else {
            Some(joined(self.apply))
        }
    }

    /// The account that a written name means.
    pub open spec fn resolve(self, name: Seq<char>) -> Seq<char> {
        through(
            self.aliases,
            match self.prefix() {
                Some(p) => p + seq![':'] + name,
                None => name,
            },
        )
    }

    /// Names that might resolve to a target.
    pub open spec fn derived(self, target: Seq<char>) -> Seq<Seq<char>> {
        let found = inverted(self.aliases, target);
        match self.prefix() {
            Some(p) => match subtext::after_spec(target, p + seq![':']) {
                Some(rest) => found.push(rest),
                None => found,
            },
            None => found,
        }
    }

    /// Candidates with what each of some texts is derived from.
    pub open spec fn widened(self, seen: Seq<Seq<char>>, from: Seq<Seq<char>>) -> Seq<
        Seq<char>,
    >
        decreases from.len(),
    {
        if from.len() == 0 {
            seen
        } else {
            with_new(self.widened(seen, from.drop_last()), self.derived(from.last()))
        }
    }

    /// The candidates for a target: itself, and what two rounds derive.
    pub open spec fn candidates(self, target: Seq<char>) -> Seq<Seq<char>> {
        let one = self.widened(seq![target], seq![target]);
        self.widened(one, one)
    }

    /// The first candidate that resolves to the target.
    pub open spec fn verified(self, candidates: Seq<Seq<char>>, target: Seq<char>) -> Option<
        Seq<char>,
    >
        decreases candidates.len(),
    {
        if candidates.len() == 0 {
            None
        } else if self.resolve(candidates[0]) == target {
            Some(candidates[0])
        } else {
            self.verified(candidates.skip(1), target)
        }
    }

    /// The text that is read back as the target.
    pub open spec fn spell(self, target: Seq<char>) -> Option<Seq<char>> {
        if self.active() {
            self.verified(self.candidates(target), target)
        } else {
            Some(target)
        }
    }

    /// The directives in effect, innermost first.
    pub open spec fn directives(self) -> Seq<(Seq<char>, Origin)> {
        self.apply.reverse().map_values(
            |p: Prefix| ("apply account "@ + p.text, p.origin),
        ) + self.aliases.reverse().map_values(|a: Rewrite| ("alias "@ + a.raw, a.origin))
    }
}

#[derive(Debug)]
struct Applied {
    prefix: String,
    origin: Origin,
}

impl View for Applied {
    type V = Prefix;

    closed spec fn view(&self) -> Prefix {
        Prefix { text: self.prefix@, origin: self.origin }
    }
}

spec fn prefixes(v: Seq<Applied>) -> Seq<Prefix> {
    v.map_values(|a: Applied| a@)
}

/// The `apply account` / `alias` state in effect at a point in the journal.
#[derive(Debug)]
pub struct Scope {
    /// Nested `apply account` prefixes, outermost first.
    apply: Vec<Applied>,
    /// Aliases in declaration order. Applied in reverse.
    aliases: Vec<Alias>,
}

impl View for Scope {
    type V = Rewrites;

    closed spec fn view(&self) -> Rewrites {
        Rewrites { apply: prefixes(self.apply@), aliases: rewrites(self.aliases@) }
    }
}

impl Default for Scope {
    fn default() -> (r: Self)
        ensures
            r@ == Rewrites::none(),
    {
        let r = Scope { apply: Vec::new(), aliases: Vec::new() };
        assert(r@ =~= Rewrites::none());
        r
    }
}

impl Clone for Scope {
    fn clone(&self) -> (r: Self)
        ensures
            r@ == self@,
    {
        let mut apply: Vec<Applied> = Vec::new();
        let mut i: usize = 0;
        while i < self.apply.len()
            invariant
                i <= self.apply@.len(),
                prefixes(apply@) =~= prefixes(self.apply@).take(i as int),
            decreases self.apply@.len() - i,
        {
            let a = &self.apply[i];
            let ghost before = prefixes(apply@);
            apply.push(Applied { prefix: a.prefix.as_str().to_owned(), origin: a.origin });
            assert(prefixes(apply@) =~= before.push(a@));
            i = i + 1;
        }
        let mut aliases: Vec<Alias> = Vec::new();
        let mut j: usize = 0;
        while j < self.aliases.len()
            invariant
                j <= self.aliases@.len(),
                rewrites(aliases@) =~= rewrites(self.aliases@).take(j as int),
            decreases self.aliases@.len() - j,
        {
            let ghost before = rewrites(aliases@);
            aliases.push(self.aliases[j].duplicate());
            assert(rewrites(aliases@) =~= before.push(self.aliases@[j as int]@));
            j = j + 1;
        }
        let r = Scope { apply, aliases };
        assert(r@ =~= self@);
        r
    }
}

/// Append the texts that a list lacks.
fn append_new(seen: &mut Vec<String>, more: Vec<String>)
    ensures
        text::texts(final(seen)@) == with_new(text::texts(old(seen)@), text::texts(more@)),
{
    let ghost all = text::texts(more@);
    let ghost start = text::texts(seen@);
    let mut i: usize = 0;
    while i < more.len()
        invariant
            i <= more@.len(),
            all == text::texts(more@),
            text::texts(seen@) == with_new(start, all.take(i as int)),
        decreases more@.len() - i,
    {
        let ghost before = text::texts(seen@);
        let d = more[i].as_str();
        assert(all.take(i + 1).drop_last() =~= all.take(i as int));
        assert(all.take(i + 1).last() == d@);
        if !text::has_text(seen.as_slice(), d) {
            seen.push(d.to_owned());
            assert(text::texts(seen@) =~= before.push(d@));
        }
        i = i + 1;
    }
    assert(all.take(all.len() as int) =~= all);
}

impl Scope {
    /// Push an `apply account` prefix.
    pub fn push_apply(&mut self, prefix: &str, origin: Origin)
        ensures
            final(self)@ == (Rewrites {
                apply: old(self)@.apply.push(
                    Prefix { text: text::trim_spec(prefix@, CharClass::White), origin },
                ),
                ..old(self)@
            }),
    {
        let ghost before = prefixes(self.apply@);
        self.apply.push(
            Applied { prefix: text::trim(prefix, CharClass::White).to_owned(), origin },
        );
        assert(prefixes(self.apply@) =~= before.push(
            Prefix { text: text::trim_spec(prefix@, CharClass::White), origin },
        ));
    }

    /// `end apply account` — pops exactly one level.
    pub fn pop_apply(&mut self)
        ensures
            final(self)@ == (Rewrites {
                apply: if old(self)@.apply.len() == 0 {
                    old(self)@.apply
                } else {
                    old(self)@.apply.drop_last()
                },
                ..old(self)@
            }),
    {
        let ghost before = prefixes(self.apply@);
        let _ = self.apply.pop();
        assert(prefixes(self.apply@) =~= if before.len() == 0 {
            before
        } else {
            before.drop_last()
        });
    }

    /// Add an alias.
    pub fn push_alias(&mut self, alias: Alias)
        ensures
            final(self)@ == (Rewrites {
                aliases: old(self)@.aliases.push(alias@),
                ..old(self)@
            }),
    {
        let ghost before = rewrites(self.aliases@);
        self.aliases.push(alias);
        assert(rewrites(self.aliases@) =~= before.push(alias@));
    }

    /// `end aliases` — clears them all.
    pub fn clear_aliases(&mut self)
        ensures
            final(self)@ == (Rewrites { aliases: Seq::empty(), ..old(self)@ }),
    {
        self.aliases.clear();
        assert(rewrites(self.aliases@) =~= Seq::empty());
    }

    /// Whether anything here rewrites account names.
    #[must_use]
    pub fn is_active(&self) -> (r: bool)
        ensures
            r == self@.active(),
    {
        self.apply.len() > 0 || self.aliases.len() > 0
    }

    /// The combined `apply account` prefix, if any.
    #[must_use]
    pub fn prefix(&self) -> (r: Option<String>)
        ensures
            text::opt_text(r) == self@.prefix(),
    {
        if self.apply.len() == 0 {
            return None;
        }
        let mut parts: Vec<&str> = Vec::new();
        let ghost want = self@.apply.map_values(|p: Prefix| p.text);
        let mut i: usize = 0;
        while i < self.apply.len()
            invariant
                i <= self.apply@.len(),
                want == self@.apply.map_values(|p: Prefix| p.text),
                text::strs(parts@) =~= want.take(i as int),
            decreases self.apply@.len() - i,
        {
            let ghost before = text::strs(parts@);
            let p = self.apply[i].prefix.as_str();
            parts.push(p);
            assert(text::strs(parts@) =~= before.push(p@));
            i = i + 1;
        }
        assert(want.take(want.len() as int) =~= want);
        proof {
            reveal_strlit(":");
            assert(":"@ =~= seq![':']);
        }
        Some(text::join(parts.as_slice(), ":"))
    }

    /// The directives in effect, innermost first, as `(description, origin)` —
    /// for the error raised when a name cannot be written here.
    #[must_use]
    pub fn active_directives(&self) -> (r: Vec<(String, Origin)>)
        ensures
            r@.map_values(|d: (String, Origin)| (d.0@, d.1)) == self@.directives(),
    {
        let mut out: Vec<(String, Origin)> = Vec::new();
        let ghost want = self@.directives();
        let ghost f = |d: (String, Origin)| (d.0@, d.1);
        let n: usize = self.apply.len();
        let mut i: usize = n;
        assert(out@.map_values(f) =~= want.take(0));
        while i > 0
            invariant
                i <= n,
                n == self.apply@.len(),
                want == self@.directives(),
                f == (|d: (String, Origin)| (d.0@, d.1)),
                out@.map_values(f) == want.take(n - i),
            decreases i,
        {
            i = i - 1;
            let a = &self.apply[i];
            let ghost before = out@.map_values(f);
            let line = text::cat("apply account ", a.prefix.as_str());
            assert(want[n - i - 1] == (line@, a.origin));
            out.push((line, a.origin));
            assert(out@.map_values(f) =~= before.push((line@, a.origin)));
            assert(want.take(n - i) =~= want.take(n - i - 1).push(want[n - i - 1]));
        }
        let m: usize = self.aliases.len();
        let mut j: usize = m;
        while j > 0
            invariant
                j <= m,
                n == self.apply@.len(),
                m == self.aliases@.len(),
                want == self@.directives(),
                f == (|d: (String, Origin)| (d.0@, d.1)),
                out@.map_values(f) == want.take(n + m - j),
            decreases j,
        {
            j = j - 1;
            let a = &self.aliases[j];
            let ghost before = out@.map_values(f);
            let line = text::cat("alias ", a.raw.as_str());
            assert(want[n + m - j - 1] == (line@, a.origin));
            out.push((line, a.origin));
            assert(out@.map_values(f) =~= before.push((line@, a.origin)));
            assert(want.take(n + m - j) =~= want.take(n + m - j - 1).push(want[n + m - j - 1]));
        }
        assert(want.take(want.len() as int) =~= want);
        out
    }

    /// Resolve a name as written in the file into the account hledger sees.
    ///
    /// `apply account` first, then aliases in reverse declaration order, each
    /// applied to the running result.
    #[must_use]
    pub fn resolve(&self, name: &str) -> (r: String)
        ensures
            r@ == self@.resolve(name@),
    {
        let mut out = match self.prefix() {
            None => name.to_owned(),
            Some(p) => {
                proof {
                    reveal_strlit(":");
                    assert(":"@ =~= seq![':']);
                }
                text::cat3(p.as_str(), ":", name)
            },
        };
        let ghost all = rewrites(self.aliases@);
        let mut i: usize = self.aliases.len();
        assert(all.take(i as int) =~= all);
        while i > 0
            invariant
                i <= self.aliases@.len(),
                all == rewrites(self.aliases@),
                through(all.take(i as int), out@) == self@.resolve(name@),
            decreases i,
        {
            i = i - 1;
            assert(all.take(i + 1).drop_last() =~= all.take(i as int));
            assert(all.take(i + 1).last() == self.aliases@[i as int]@);
            out = self.aliases[i].apply(out.as_str());
        }
        out
    }

    /// Names that might resolve to a target.
    fn derived(&self, target: &str) -> (r: Vec<String>)
        ensures
            text::texts(r@) == self@.derived(target@),
    {
        let mut out: Vec<String> = Vec::new();
        let ghost all = rewrites(self.aliases@);
        let mut i: usize = 0;
        assert(text::texts(out@) =~= inverted(all.take(0), target@));
        while i < self.aliases.len()
            invariant
                i <= self.aliases@.len(),
                all == rewrites(self.aliases@),
                text::texts(out@) == inverted(all.take(i as int), target@),
            decreases self.aliases@.len() - i,
        {
            let ghost before = text::texts(out@);
            let mut more = self.aliases[i].invert(target);
            let ghost found = text::texts(more@);
            out.append(&mut more);
            assert(text::texts(out@) =~= before + found);
            assert(all.take(i + 1).drop_last() =~= all.take(i as int));
            assert(all.take(i + 1).last() == self.aliases@[i as int]@);
            i = i + 1;
        }
        assert(all.take(all.len() as int) =~= all);
        if let Some(p) = self.prefix() {
            proof {
                reveal_strlit(":");
                assert(":"@ =~= seq![':']);
            }
            let lead = text::cat(p.as_str(), ":");
            if let Some(rest) = subtext::after(target, lead.as_str()) {
                let ghost before = text::texts(out@);
                out.push(rest.to_owned());
                assert(text::texts(out@) =~= before.push(rest@));
            }
        }
        out
    }

    /// Candidates with what each of them is derived from.
    fn widen(&self, seen: &mut Vec<String>)
        ensures
            text::texts(final(seen)@) == self@.widened(
                text::texts(old(seen)@),
                text::texts(old(seen)@),
            ),
    {
        let from = text::copies(seen.as_slice());
        let ghost all = text::texts(from@);
        let mut i: usize = 0;
        while i < from.len()
            invariant
                i <= from@.len(),
                all == text::texts(from@),
                text::texts(seen@) == self@.widened(all, all.take(i as int)),
            decreases from@.len() - i,
        {
            assert(all.take(i + 1).drop_last() =~= all.take(i as int));
            assert(all.take(i + 1).last() == from@[i as int]@);
            append_new(seen, self.derived(from[i].as_str()));
            i = i + 1;
        }
        assert(all.take(all.len() as int) =~= all);
    }

    /// The text to write into the file so that hledger reads it back as
    /// `target`.
    ///
    /// Candidates are generated by stripping the prefix and inverting exact
    /// aliases, then **each is verified** with [`Self::resolve`]; the first
    /// that round-trips wins. `None` means `target` cannot be expressed at
    /// this point in the file, which is a refusal, never a guess.
    #[must_use]
    pub fn spell(&self, target: &str) -> (r: Option<String>)
        ensures
            text::opt_text(r) == self@.spell(target@),
            r matches Some(c) ==> self@.resolve(c@) == target@,
    {
        proof {
            spelling_is_read_back(self@, target@);
        }
        if !self.is_active() {
            return Some(target.to_owned());
        }
        let mut seen: Vec<String> = Vec::new();
        seen.push(target.to_owned());
        assert(text::texts(seen@) =~= seq![target@]);
        // Two rounds is enough to undo "prefix, then one alias", which is the
        // deepest composition that can be inverted without guessing.
        self.widen(&mut seen);
        self.widen(&mut seen);
        let ghost all = text::texts(seen@);
        let mut i: usize = 0;
        assert(all.skip(0) =~= all);
        while i < seen.len()
            invariant
                i <= seen@.len(),
                all == text::texts(seen@),
                self@.verified(all, target@) == self@.verified(all.skip(i as int), target@),
                self@.spell(target@) == self@.verified(all, target@),
                forall|c: Seq<char>| self@.spell(target@) == Some(c) ==> self@.resolve(c)
                    == target@,
            decreases seen@.len() - i,
        {
            let c = seen[i].as_str();
            assert(all.skip(i as int)[0] == c@);
            let back = self.resolve(c);
            if text::same(back.as_str(), target) {
                return Some(c.to_owned());
            }
            assert(all.skip(i as int).skip(1) =~= all.skip(i + 1));
            i = i + 1;
        }
        None
    }
}

/// A spelling is never a guess: what is written is read back as the account
/// that was meant.
pub proof fn spelling_is_read_back(scope: Rewrites, target: Seq<char>)
    ensures
        scope.spell(target) matches Some(c) ==> scope.resolve(c) == target,
{
    if scope.active() {
        lemma_verified(scope, scope.candidates(target), target);
    }
}

proof fn lemma_verified(scope: Rewrites, candidates: Seq<Seq<char>>, target: Seq<char>)
    ensures
        scope.verified(candidates, target) matches Some(c) ==> scope.resolve(c) == target,
        (exists|i: int|
            0 <= i < candidates.len() && scope.resolve(#[trigger] candidates[i]) == target) ==> (
        scope.verified(candidates, target) is Some),
    decreases candidates.len(),
{
    if candidates.len() > 0 {
        lemma_verified(scope, candidates.skip(1), target);
        assert forall|i: int|
            0 <= i < candidates.len() && scope.resolve(#[trigger] candidates[i])
                == target implies scope.verified(candidates, target) is Some by {
            if i > 0 {
                assert(candidates.skip(1)[i - 1] == candidates[i]);
            }
        }
    }
}

/// An account that reads back as itself is written as itself.
pub proof fn a_name_that_stays_is_written_as_it_is(scope: Rewrites, target: Seq<char>)
    requires
        scope.resolve(target) == target,
    ensures
        scope.spell(target) == Some(target),
{
    if scope.active() {
        let one = scope.widened(seq![target], seq![target]);
        lemma_widened_first(scope, seq![target], seq![target]);
        lemma_widened_first(scope, one, one);
    }
}

proof fn lemma_widened_first(scope: Rewrites, seen: Seq<Seq<char>>, from: Seq<Seq<char>>)
    requires
        seen.len() > 0,
    ensures
        scope.widened(seen, from).len() > 0,
        scope.widened(seen, from)[0] == seen[0],
    decreases from.len(),
{
    if from.len() > 0 {
        lemma_widened_first(scope, seen, from.drop_last());
        lemma_with_new_first(scope.widened(seen, from.drop_last()), scope.derived(from.last()));
    }
}

proof fn lemma_with_new_first(seen: Seq<Seq<char>>, more: Seq<Seq<char>>)
    requires
        seen.len() > 0,
    ensures
        with_new(seen, more).len() > 0,
        with_new(seen, more)[0] == seen[0],
    decreases more.len(),
{
    if more.len() > 0 {
        lemma_with_new_first(seen, more.drop_last());
    }
}

/// Opening an `apply account` and closing it again leaves the names as they
/// were.
pub proof fn closing_undoes_opening(scope: Rewrites, prefix: Prefix)
    ensures
        (Rewrites {
            apply: scope.apply.push(prefix).drop_last(),
            aliases: scope.aliases,
        }) == scope,
{
    assert(scope.apply.push(prefix).drop_last() =~= scope.apply);
}

} // verus!
