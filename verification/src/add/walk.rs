//! The walk over a journal's include tree.
//!
//! - include paths resolve relative to the *including* file's directory
//! - globs are expanded in sorted order
//! - include cycles (any revisit of a file) are an error
//! - the walk is depth-first, in file order
//!
//! The walk decides and the caller does the file work: [`Walk::step`] reads on
//! and says when it needs the files an `include` line names, and
//! [`Walk::answer`] takes them.

use vstd::prelude::*;
use vstd::string::*;
use crate::add::parser::{
    Book, CommodityRead, Decl, Declaration, FileRead, IncludeSpan, Journal, ParseState,
    SourceFile, State,
};
use crate::add::scope::{self, Alias, Origin, Prefix, Rewrite, Rewrites};
use crate::fmt;
use crate::lex;
use crate::text::{self, CharClass};
use crate::add::parser;

verus! {

// ---- what the walk is told ----

/// What an [`IncludeTarget`] says.
#[verifier::ext_equal]
pub struct Target {
    pub path: Seq<char>,
    pub shown: Seq<char>,
    pub canonical: Seq<char>,
    pub content: Result<Seq<char>, Seq<char>>,
}

/// Whether an `include` argument names files by a pattern.
pub open spec fn is_pattern_spec(arg: Seq<char>) -> bool {
    arg.contains('*') || arg.contains('?') || arg.contains('[')
}

/// Whether an `include` argument names files by a pattern rather than one file
/// by its path: it holds a `*`, a `?` or a `[`.
#[must_use]
pub fn is_pattern(arg: &str) -> (r: bool)
    ensures
        r == is_pattern_spec(arg@),
{
    proof {
        lemma_any_is(arg@, '*');
        lemma_any_is(arg@, '?');
        lemma_any_is(arg@, '[');
    }
    text::any(arg, CharClass::Is('*')) || text::any(arg, CharClass::Is('?')) || text::any(
        arg,
        CharClass::Is('['),
    )
}

proof fn lemma_any_is(s: Seq<char>, c: char)
    ensures
        text::any_spec(s, CharClass::Is(c)) == s.contains(c),
{
    if s.contains(c) {
        let i = choose|i: int| 0 <= i < s.len() && s[i] == c;
        assert(CharClass::Is(c).has(s[i]));
    }
}

/// A file that an `include` line names.
#[derive(Debug)]
pub struct IncludeTarget {
    /// The path as resolved.
    pub path: String,
    /// The path as shown to the user.
    pub shown: String,
    /// The path by which the file is recognised when it is met again.
    pub canonical: String,
    /// The file's text, or why it cannot be read.
    pub content: Result<String, String>,
}

impl View for IncludeTarget {
    type V = Target;

    open spec fn view(&self) -> Target {
        Target {
            path: self.path@,
            shown: self.shown@,
            canonical: self.canonical@,
            content: match self.content {
                Ok(s) => Ok(s@),
                Err(s) => Err(s@),
            },
        }
    }
}

pub open spec fn targets_view(v: Seq<IncludeTarget>) -> Seq<Target> {
    v.map_values(|t: IncludeTarget| t@)
}

/// What a [`Step`] says.
#[verifier::ext_equal]
pub enum Ask {
    Continue,
    Include { path: Seq<char>, pattern: Seq<char> },
    Cycle { shown: Seq<char> },
    Done,
}

/// What the walk needs next.
#[derive(Debug)]
pub enum Step {
    /// Nothing: step on.
    Continue,
    /// The files that `pattern` names in the directory of `path`, in sorted
    /// order.
    Include { path: String, pattern: String },
    /// Nothing more can be read: this file is included twice.
    Cycle { shown: String },
    /// Nothing more: the journal is read.
    Done,
}

impl View for Step {
    type V = Ask;

    open spec fn view(&self) -> Ask {
        match self {
            Step::Continue => Ask::Continue,
            Step::Include { path, pattern } => Ask::Include { path: path@, pattern: pattern@ },
            Step::Cycle { shown } => Ask::Cycle { shown: shown@ },
            Step::Done => Ask::Done,
        }
    }
}

// ---- positions ----

/// A stream position further on, which stays at the largest one.
pub open spec fn advanced(pos: usize, n: int) -> usize {
    if pos + n > usize::MAX {
        usize::MAX
    } else {
        (pos + n) as usize
    }
}

fn advance(pos: usize, n: usize) -> (r: usize)
    ensures
        r == advanced(pos, n as int),
{
    if n > usize::MAX - pos {
        usize::MAX
    } else {
        pos + n
    }
}

// ---- one directive ----

/// What a directive line changes.
#[verifier::ext_equal]
pub struct Effect {
    pub book: Book,
    pub state: State,
    /// The `commodity` declaration that it opens.
    pub open: Option<int>,
    /// Whether the parse state changed.
    pub changed: bool,
}

/// The warning about an alias that cannot be used.
pub open spec fn alias_warning(shown: Seq<char>, line: usize) -> Seq<char> {
    shown + ":"@ + text::digits_spec(line as nat)
        + ": ignoring alias that is not `OLD=NEW` or `/REGEX/=REPLACEMENT`"@
}

/// What a line that opens no transaction and includes no file changes.
///
/// Anything unrecognized — blank lines, comments, other directives — changes
/// nothing.
pub open spec fn directive_spec(
    book: Book,
    state: State,
    line: Seq<char>,
    shown: Seq<char>,
    at: Origin,
    pos: usize,
) -> Effect {
    let same = Effect { book, state, open: None, changed: false };
    if let Some(name) = lex::directive_arg_spec(line, "account"@) {
        let d = Decl { name: state.scope.resolve(name), pos };
        Effect { book: Book { accounts: book.accounts.push(d), ..book }, ..same }
    } else if let Some(sample) = lex::directive_arg_spec(line, "commodity"@) {
        Effect {
            book: Book {
                commodities: book.commodities.push(parser::parse_commodity_spec(sample, pos)),
                ..book
            },
            open: Some(book.commodities.len() as int),
            ..same
        }
    } else if let Some(name) = lex::directive_rest_spec(line, "payee"@) {
        Effect { book: Book { payees: book.payees.push(Decl { name, pos }), ..book }, ..same }
    } else if let Some(name) = lex::directive_rest_spec(line, "tag"@) {
        Effect { book: Book { tags: book.tags.push(Decl { name, pos }), ..book }, ..same }
    } else if let Some(mark) = lex::directive_arg_spec(line, "decimal-mark"@) {
        Effect { state: State { decimal_mark: Some(mark[0]), ..state }, changed: true, ..same }
    } else if let Some(sample) = lex::directive_arg_spec(line, "D"@) {
        Effect {
            book: Book { defaults: book.defaults.push(Decl { name: sample, pos }), ..book },
            state: State { default_commodity: Some(sample), ..state },
            changed: true,
            ..same
        }
    } else if let Some(y) = parser::year_directive_spec(line) {
        Effect { state: State { year: Some(y as i32), ..state }, changed: true, ..same }
    } else if let Some(prefix) = lex::directive_rest_spec(line, "apply account"@) {
        let p = Prefix { text: text::trim_spec(prefix, CharClass::White), origin: at };
        Effect {
            state: State {
                scope: Rewrites { apply: state.scope.apply.push(p), ..state.scope },
                ..state
            },
            changed: true,
            ..same
        }
    } else if lex::is_directive_spec(line, "end apply account"@) {
        Effect {
            state: State {
                scope: Rewrites {
                    apply: if state.scope.apply.len() == 0 {
                        state.scope.apply
                    } else {
                        state.scope.apply.drop_last()
                    },
                    ..state.scope
                },
                ..state
            },
            changed: true,
            ..same
        }
    } else if lex::is_directive_spec(line, "end aliases"@) {
        Effect {
            state: State { scope: Rewrites { aliases: Seq::empty(), ..state.scope }, ..state },
            changed: true,
            ..same
        }
    } else if let Some(arg) = lex::directive_rest_spec(line, "alias"@) {
        match scope::rule_spec(arg) {
            Some(rule) => {
                let a = Rewrite {
                    raw: text::trim_spec(arg, CharClass::White),
                    rule,
                    origin: at,
                };
                Effect {
                    state: State {
                        scope: Rewrites { aliases: state.scope.aliases.push(a), ..state.scope },
                        ..state
                    },
                    changed: true,
                    ..same
                }
            },
            None => Effect {
                book: Book {
                    warnings: book.warnings.push(alias_warning(shown, at.line)),
                    ..book
                },
                ..same
            },
        }
    } else {
        same
    }
}

/// Append a declaration.
fn declare(ds: &mut Vec<Declaration>, name: String, pos: usize)
    ensures
        parser::decls(final(ds)@) == parser::decls(old(ds)@).push(Decl { name: name@, pos }),
{
    let ghost before = parser::decls(ds@);
    let ghost d = Decl { name: name@, pos };
    ds.push(Declaration { name, pos });
    assert(parser::decls(ds@) =~= before.push(d));
}

/// Append a warning.
fn warn(warnings: &mut Vec<String>, w: String)
    ensures
        text::texts(final(warnings)@) == text::texts(old(warnings)@).push(w@),
{
    let ghost before = text::texts(warnings@);
    let ghost wv = w@;
    warnings.push(w);
    assert(text::texts(warnings@) =~= before.push(wv));
}

/// Handle one line that opens no transaction and includes no file. Gives the
/// `commodity` declaration that it opens, and whether it changed the parse
/// state, which is what needs a checkpoint recorded.
fn directive(
    journal: &mut Journal,
    state: &mut ParseState,
    line: &str,
    shown: &str,
    at: Origin,
    pos: usize,
) -> (r: (Option<usize>, bool))
    ensures
        ({
            let e = directive_spec(old(journal)@, old(state)@, line@, shown@, at, pos);
            &&& final(journal)@ == e.book
            &&& final(state)@ == e.state
            &&& e.open == (match r.0 {
                Some(n) => Some(n as int),
                None => None,
            })
            &&& e.changed == r.1
        }),
{
    if let Some(name) = lex::directive_arg(line, "account") {
        // `apply account` prefixes declarations too: inside `apply account
        // assets`, `account checking` declares `assets:checking`, and
        // declaring the resolved name there is the error.
        declare(&mut journal.accounts, state.scope.resolve(name), pos);
        (None, false)
    } else if let Some(sample) = lex::directive_arg(line, "commodity") {
        let open: usize = journal.commodities.len();
        let ghost before = parser::commodities_read(journal.commodities@);
        let c = parser::parse_commodity(sample, pos);
        let ghost cv = c@;
        journal.commodities.push(c);
        assert(parser::commodities_read(journal.commodities@) =~= before.push(cv));
        (Some(open), false)
    } else if let Some(name) = lex::directive_rest(line, "payee") {
        declare(&mut journal.payees, name.to_owned(), pos);
        (None, false)
    } else if let Some(name) = lex::directive_rest(line, "tag") {
        declare(&mut journal.tags, name.to_owned(), pos);
        (None, false)
    } else if let Some(mark) = lex::directive_arg(line, "decimal-mark") {
        state.decimal_mark = text::first(mark);
        (None, true)
    } else if let Some(sample) = lex::directive_arg(line, "D") {
        state.default_commodity = Some(sample.to_owned());
        declare(&mut journal.defaults, sample.to_owned(), pos);
        (None, true)
    } else if let Some(y) = parser::year_directive(line) {
        state.year = Some(y);
        (None, true)
    } else if let Some(prefix) = lex::directive_rest(line, "apply account") {
        state.scope.push_apply(prefix, at);
        (None, true)
    } else if lex::is_directive(line, "end apply account") {
        state.scope.pop_apply();
        (None, true)
    } else if lex::is_directive(line, "end aliases") {
        state.scope.clear_aliases();
        (None, true)
    } else if let Some(arg) = lex::directive_rest(line, "alias") {
        if let Some(alias) = Alias::parse(arg, at) {
            state.scope.push_alias(alias);
            (None, true)
        } else {
            let mut w = text::cat3(shown, ":", text::digits(at.line).as_str());
            w.append(": ignoring alias that is not `OLD=NEW` or `/REGEX/=REPLACEMENT`");
            warn(&mut journal.warnings, w);
            (None, false)
        }
    } else {
        (None, false)
    }
}

// ---- the walk ----

/// An `include` line whose files are being read.
#[verifier::ext_equal]
pub struct Pending {
    pub line: usize,
    pub start_pos: usize,
    pub pattern: Seq<char>,
}

/// A file being read.
#[verifier::ext_equal]
pub struct Reading {
    /// Its index among the files of the journal.
    pub file: usize,
    pub path: Seq<char>,
    pub shown: Seq<char>,
    pub lines: Seq<Seq<char>>,
    /// The next line.
    pub at: int,
    pub state: State,
    /// The `commodity` declaration whose indented block we are inside.
    pub open: Option<int>,
    /// Whether we are inside a `comment` block.
    pub opaque: bool,
    /// The `include` line whose files are being read, and those still to read.
    pub pending: Option<Pending>,
    pub targets: Seq<Target>,
}

/// How far the walk has come.
#[verifier::ext_equal]
pub struct Progress {
    pub book: Book,
    pub visited: Seq<Seq<char>>,
    pub pos: usize,
    /// The files being read, the innermost last.
    pub stack: Seq<Reading>,
    /// The year of partial dates where no `Y` directive is in effect.
    pub this_year: i32,
}

/// The indented lines at the start of some lines.
pub open spec fn indented_run(ls: Seq<Seq<char>>) -> int
    decreases ls.len(),
{
    if ls.len() == 0 || !lex::is_indented_spec(ls[0]) {
        0
    } else {
        1 + indented_run(ls.skip(1))
    }
}

/// The journal with a file's entry replaced.
pub open spec fn with_file(book: Book, file: usize, entry: FileRead) -> Book {
    Book { files: book.files.update(file as int, entry), ..book }
}

/// The journal with a parse state recorded as in effect from a line. One
/// already recorded for that line is replaced.
pub open spec fn checkpoint_spec(book: Book, file: usize, line: usize, state: State) -> Book {
    if file < book.files.len() {
        let f = book.files[file as int];
        let kept = if f.states.len() > 0 && f.states.last().0 == line {
            f.states.drop_last()
        } else {
            f.states
        };
        with_file(book, file, FileRead { states: kept.push((line, state)), ..f })
    } else {
        book
    }
}

/// The journal with the sample of a `commodity` declaration supplied.
pub open spec fn sampled(book: Book, open: Option<int>, line: Seq<char>) -> Book {
    match (
        open,
        lex::directive_arg_spec(text::trim_start_spec(line, CharClass::White), "format"@),
    ) {
        (Some(ci), Some(sample)) => if 0 <= ci < book.commodities.len() {
            Book {
                commodities: book.commodities.update(
                    ci,
                    CommodityRead { sample: Some(sample), ..book.commodities[ci] },
                ),
                ..book
            }
        } else {
            book
        },
        _ => book,
    }
}

/// The journal with a transaction, or with the warning that it cannot be read.
pub open spec fn with_txn(
    book: Book,
    top: Reading,
    run: Seq<Seq<char>>,
    pos: usize,
    this_year: i32,
) -> Book {
    let lineno = (top.at + 1) as usize;
    match parser::parse_transaction_spec(
        top.lines[top.at],
        run,
        top.file,
        lineno,
        pos,
        top.state,
        this_year,
    ) {
        Ok(t) => Book { transactions: book.transactions.push(t), ..book },
        Err(why) => Book {
            warnings: book.warnings.push(
                top.shown + ":"@ + text::digits_spec(lineno as nat)
                    + ": skipping unparseable transaction ("@ + why + ")"@,
            ),
            ..book
        },
    }
}

impl Progress {
    pub open spec fn start(this_year: i32) -> Progress {
        Progress {
            book: Book::nothing(),
            visited: Seq::empty(),
            pos: 0,
            stack: Seq::empty(),
            this_year,
        }
    }

    /// With the innermost file's progress replaced.
    pub open spec fn with_top(self, top: Reading) -> Progress {
        Progress { stack: self.stack.drop_last().push(top), ..self }
    }

    /// Begin to read a file.
    pub open spec fn enter(
        self,
        path: Seq<char>,
        shown: Seq<char>,
        canonical: Seq<char>,
        content: Seq<char>,
        state: State,
    ) -> (Progress, Ask) {
        if self.visited.contains(canonical) {
            (self, Ask::Cycle { shown })
        } else {
            let entry = FileRead {
                path,
                canonical,
                start_pos: self.pos,
                eof_pos: 0,
                state_at_eof: State::initial(),
                includes: Seq::empty(),
                states: seq![(0usize, state)],
            };
            let reading = Reading {
                file: self.book.files.len() as usize,
                path,
                shown,
                lines: fmt::lines_spec(content),
                at: 0,
                state,
                open: None,
                opaque: false,
                pending: None,
                targets: Seq::empty(),
            };
            (
                Progress {
                    book: Book { files: self.book.files.push(entry), ..self.book },
                    visited: self.visited.push(canonical),
                    stack: self.stack.push(reading),
                    ..self
                },
                Ask::Continue,
            )
        }
    }

    /// Read the next of the files that an `include` line names.
    pub open spec fn next_target(self) -> (Progress, Ask) {
        let top = self.stack.last();
        let t = top.targets[0];
        let rest = self.with_top(Reading { targets: top.targets.skip(1), ..top });
        match t.content {
            Ok(content) => rest.enter(t.path, t.shown, t.canonical, content, top.state),
            Err(why) => (
                Progress {
                    book: Book {
                        warnings: rest.book.warnings.push(
                            top.shown + ": include not readable: "@ + t.shown + ": "@ + why
                                + " — accounts and history from it are unavailable"@,
                        ),
                        ..rest.book
                    },
                    ..rest
                },
                Ask::Continue,
            ),
        }
    }

    /// Record the span of an `include` line whose files are read.
    pub open spec fn end_include(self) -> Progress {
        let top = self.stack.last();
        match top.pending {
            Some(p) => {
                let after = self.with_top(Reading { pending: None, ..top });
                if top.file < self.book.files.len() {
                    let f = self.book.files[top.file as int];
                    let span = IncludeSpan {
                        line: p.line,
                        start_pos: p.start_pos,
                        end_pos: self.pos,
                    };
                    Progress {
                        book: with_file(
                            self.book,
                            top.file,
                            FileRead { includes: f.includes.push(span), ..f },
                        ),
                        ..after
                    }
                } else {
                    after
                }
            },
            None => self,
        }
    }

    /// Leave the innermost file.
    pub open spec fn leave(self) -> Progress {
        let top = self.stack.last();
        let after = Progress { stack: self.stack.drop_last(), ..self };
        if top.file < self.book.files.len() {
            let f = self.book.files[top.file as int];
            Progress {
                book: with_file(
                    self.book,
                    top.file,
                    FileRead { eof_pos: self.pos, state_at_eof: top.state, ..f },
                ),
                ..after
            }
        } else {
            after
        }
    }

    /// Read the next line of the innermost file, and with a transaction's
    /// header its indented lines.
    pub open spec fn read(self) -> (Progress, Ask) {
        let top = self.stack.last();
        let line = top.lines[top.at];
        let past = Reading { at: top.at + 1, ..top };
        let pos = advanced(self.pos, 1);
        let on = Progress { pos, ..self };
        if top.opaque {
            (
                on.with_top(Reading { opaque: !lex::closes_block_spec(line), ..past }),
                Ask::Continue,
            )
        } else if lex::opens_block_spec(line) {
            (on.with_top(Reading { opaque: true, open: None, ..past }), Ask::Continue)
        } else if lex::is_indented_spec(line) {
            (
                Progress { book: sampled(self.book, top.open, line), ..on.with_top(past) },
                Ask::Continue,
            )
        } else if lex::opens_txn_spec(line) {
            let n = indented_run(top.lines.skip(top.at + 1));
            let run = top.lines.subrange(top.at + 1, top.at + 1 + n);
            (
                Progress {
                    book: with_txn(self.book, top, run, self.pos, self.this_year),
                    pos: advanced(pos, n),
                    ..on.with_top(Reading { at: top.at + 1 + n, open: None, ..top })
                },
                Ask::Continue,
            )
        } else if let Some(pattern) = lex::directive_arg_spec(line, "include"@) {
            // An include's declarations escape into the parent, but its parse
            // state does not, so nothing to checkpoint here.
            let p = Pending { line: top.at as usize, start_pos: pos, pattern };
            (
                on.with_top(Reading { open: None, pending: Some(p), ..past }),
                Ask::Include { path: top.path, pattern },
            )
        } else {
            let at = Origin { file: top.file, line: (top.at + 1) as usize };
            let e = directive_spec(self.book, top.state, line, top.shown, at, self.pos);
            let book = if e.changed {
                checkpoint_spec(e.book, top.file, (top.at + 1) as usize, e.state)
            } else {
                e.book
            };
            (
                Progress {
                    book,
                    ..on.with_top(Reading { state: e.state, open: e.open, ..past })
                },
                Ask::Continue,
            )
        }
    }

    /// One step of the walk.
    pub open spec fn step(self) -> (Progress, Ask) {
        if self.stack.len() == 0 {
            (self, Ask::Done)
        } else {
            let top = self.stack.last();
            if top.targets.len() > 0 {
                self.next_target()
            } else if top.pending is Some {
                (self.end_include(), Ask::Continue)
            } else if top.at >= top.lines.len() {
                (self.leave(), Ask::Continue)
            } else {
                self.read()
            }
        }
    }

    /// Take the files that an `include` line names.
    pub open spec fn answered(self, targets: Seq<Target>) -> Progress {
        if self.stack.len() == 0 {
            self
        } else {
            let top = self.stack.last();
            match top.pending {
                None => self,
                Some(p) => if targets.len() == 0 {
                    Progress {
                        book: Book {
                            warnings: self.book.warnings.push(
                                top.shown + ": include not found: "@ + p.pattern
                                    + " — accounts and history from it are unavailable"@,
                            ),
                            ..self.book
                        },
                        ..self
                    }
                } else {
                    self.with_top(Reading { targets, ..top })
                },
            }
        }
    }
}


// ---- walking ----

#[derive(Debug)]
struct PendingInclude {
    line: usize,
    start_pos: usize,
    pattern: String,
}

#[derive(Debug)]
struct Frame {
    file: usize,
    path: String,
    shown: String,
    lines: Vec<String>,
    at: usize,
    state: ParseState,
    open: Option<usize>,
    opaque: bool,
    pending: Option<PendingInclude>,
    targets: Vec<IncludeTarget>,
}

impl View for Frame {
    type V = Reading;

    closed spec fn view(&self) -> Reading {
        Reading {
            file: self.file,
            path: self.path@,
            shown: self.shown@,
            lines: text::texts(self.lines@),
            at: self.at as int,
            state: self.state@,
            open: match self.open {
                Some(n) => Some(n as int),
                None => None,
            },
            opaque: self.opaque,
            pending: match self.pending {
                Some(p) => Some(
                    Pending { line: p.line, start_pos: p.start_pos, pattern: p.pattern@ },
                ),
                None => None,
            },
            targets: targets_view(self.targets@),
        }
    }
}

spec fn readings(v: Seq<Frame>) -> Seq<Reading> {
    v.map_values(|f: Frame| f@)
}

/// Walk state threaded through the include tree.
#[derive(Debug)]
pub struct Walk {
    journal: Journal,
    /// Canonical paths already entered — any revisit is a cycle error.
    visited: Vec<String>,
    /// Flattened stream position, incremented once per line.
    pos: usize,
    frames: Vec<Frame>,
    this_year: i32,
}

impl View for Walk {
    type V = Progress;

    closed spec fn view(&self) -> Progress {
        Progress {
            book: self.journal@,
            visited: text::texts(self.visited@),
            pos: self.pos,
            stack: readings(self.frames@),
            this_year: self.this_year,
        }
    }
}

/// Record the parse state in effect from 0-based `line` of a file.
fn checkpoint(journal: &mut Journal, file: usize, line: usize, state: &ParseState)
    ensures
        final(journal)@ == checkpoint_spec(old(journal)@, file, line, state@),
{
    if file < journal.files.len() {
        let ghost files = journal@.files;
        let ghost before = journal.files@[file as int]@;
        let entry = &mut journal.files[file];
        let n: usize = entry.states.len();
        // A directive on the very first line replaces the inherited entry
        // rather than adding a redundant one.
        if n > 0 && entry.states[n - 1].0 == line {
            let _ = entry.states.pop();
        }
        entry.states.push((line, state.clone()));
        let ghost kept = if before.states.len() > 0 && before.states.last().0 == line {
            before.states.drop_last()
        } else {
            before.states
        };
        assert(parser::checkpoints(entry.states@) =~= kept.push((line, state@)));
        let ghost after = entry@;
        assert(after == (FileRead { states: kept.push((line, state@)), ..before }));
        assert(journal@.files =~= files.update(file as int, after));
    }
}

impl Walk {
    /// A walk that has read nothing. Partial dates where no `Y` directive is
    /// in effect take `this_year`.
    #[must_use]
    pub fn new(this_year: i32) -> (r: Walk)
        ensures
            r@ == Progress::start(this_year),
    {
        let r = Walk {
            journal: Journal::default(),
            visited: Vec::new(),
            pos: 0,
            frames: Vec::new(),
            this_year,
        };
        assert(r@ =~= Progress::start(this_year));
        r
    }

    /// Begin to read a file. `state` is the parse state inherited from the
    /// parent (a copy — mutations in the file do not escape back).
    fn enter(
        &mut self,
        path: String,
        shown: String,
        canonical: String,
        content: &str,
        state: ParseState,
    ) -> (r: Step)
        ensures
            (final(self)@, r@) == old(self)@.enter(
                path@,
                shown@,
                canonical@,
                content@,
                state@,
            ),
    {
        if text::has_text(self.visited.as_slice(), canonical.as_str()) {
            return Step::Cycle { shown };
        }
        let ghost was = self@;
        let ghost key = canonical@;
        let file: usize = self.journal.files.len();
        self.visited.push(canonical.as_str().to_owned());
        assert(text::texts(self.visited@) =~= was.visited.push(key));
        // The slot is reserved now so file indices reflect encounter order;
        // the eof fields are patched when the file is done.
        let mut states: Vec<(usize, ParseState)> = Vec::new();
        // The inherited state is in effect from the file's first line.
        states.push((0, state.clone()));
        assert(parser::checkpoints(states@) =~= seq![(0usize, state@)]);
        let entry = SourceFile {
            path: path.as_str().to_owned(),
            canonical,
            start_pos: self.pos,
            eof_pos: 0,
            state_at_eof: ParseState::default(),
            includes: Vec::new(),
            states,
        };
        let ghost ev = entry@;
        assert(ev.includes =~= Seq::empty());
        self.journal.files.push(entry);
        assert(self.journal@.files =~= was.book.files.push(ev));
        let lines = text::owned(fmt::lines(content).as_slice());
        let frame = Frame {
            file,
            path,
            shown,
            lines,
            at: 0,
            state,
            open: None,
            opaque: false,
            pending: None,
            targets: Vec::new(),
        };
        let ghost fv = frame@;
        assert(fv.targets =~= Seq::empty());
        self.frames.push(frame);
        assert(readings(self.frames@) =~= was.stack.push(fv));
        assert(self@ =~= was.enter(path@, shown@, key, content@, state@).0);
        Step::Continue
    }

    /// Begin with the journal's main file.
    pub fn begin(&mut self, path: String, shown: String, canonical: String, content: &str) -> (r:
        Step)
        ensures
            (final(self)@, r@) == old(self)@.enter(
                path@,
                shown@,
                canonical@,
                content@,
                State::initial(),
            ),
    {
        self.enter(path, shown, canonical, content, ParseState::default())
    }

    /// Put the innermost file back.
    fn resume(&mut self, top: Frame)
        ensures
            final(self)@ == (Progress { stack: old(self)@.stack.push(top@), ..old(self)@ }),
    {
        let ghost was = self@;
        let ghost fv = top@;
        self.frames.push(top);
        assert(readings(self.frames@) =~= was.stack.push(fv));
    }

    /// Read on: the next line, the next included file, or the end of one.
    pub fn step(&mut self) -> (r: Step)
        ensures
            (final(self)@, r@) == old(self)@.step(),
    {
        let ghost was = self@;
        let top = match self.frames.pop() {
            None => {
                assert(readings(self.frames@) =~= was.stack);
                return Step::Done;
            },
            Some(top) => top,
        };
        assert(was.stack.last() == top@);
        assert(readings(self.frames@) =~= was.stack.drop_last());
        assert(was == (Progress { stack: self@.stack.push(top@), ..self@ })) by {
            assert(was.stack.drop_last().push(top@) =~= was.stack);
        }
        assert(targets_view(top.targets@).len() == top.targets@.len());
        if top.targets.len() > 0 {
            self.next_target(top)
        } else if top.pending.is_some() {
            self.end_include(top);
            Step::Continue
        } else if top.at >= top.lines.len() {
            self.leave(top);
            Step::Continue
        } else {
            self.read(top)
        }
    }

    /// Read the next of the files that an `include` line names.
    fn next_target(&mut self, start: Frame) -> (r: Step)
        requires
            start@.targets.len() > 0,
        ensures
            (final(self)@, r@) == (Progress {
                stack: old(self)@.stack.push(start@),
                ..old(self)@
            }).next_target(),
    {
        let ghost was = self@;
        let ghost sv = start@;
        let ghost full = Progress { stack: was.stack.push(sv), ..was };
        assert(full.stack.last() == sv);
        assert(full.stack.drop_last() =~= was.stack);
        let mut top = start;
        let t = top.targets.remove(0);
        assert(sv.targets[0] == t@);
        assert(targets_view(top.targets@) =~= sv.targets.skip(1));
        let state = top.state.clone();
        match t.content {
            Ok(content) => {
                self.resume(top);
                self.enter(t.path, t.shown, t.canonical, content.as_str(), state)
            },
            Err(why) => {
                let mut w = text::cat3(
                    top.shown.as_str(),
                    ": include not readable: ",
                    t.shown.as_str(),
                );
                w.append(": ");
                w.append(why.as_str());
                w.append(" — accounts and history from it are unavailable");
                warn(&mut self.journal.warnings, w);
                self.resume(top);
                Step::Continue
            },
        }
    }

    /// Record the span of an `include` line whose files are read.
    fn end_include(&mut self, start: Frame)
        requires
            start@.pending is Some,
        ensures
            final(self)@ == (Progress {
                stack: old(self)@.stack.push(start@),
                ..old(self)@
            }).end_include(),
    {
        let ghost was = self@;
        let ghost sv = start@;
        let ghost full = Progress { stack: was.stack.push(sv), ..was };
        assert(full.stack.last() == sv);
        assert(full.stack.drop_last() =~= was.stack);
        let mut top = start;
        if let Some(p) = top.pending {
            if top.file < self.journal.files.len() {
                let span = IncludeSpan {
                    line: p.line,
                    start_pos: p.start_pos,
                    end_pos: self.pos,
                };
                let ghost before = self.journal.files@[top.file as int]@;
                let entry = &mut self.journal.files[top.file];
                entry.includes.push(span);
                let ghost after = entry@;
                assert(after == (FileRead { includes: before.includes.push(span), ..before }));
                assert(self.journal@.files =~= was.book.files.update(top.file as int, after));
            }
            top.pending = None;
            self.resume(top);
        }
    }

    /// Leave a file.
    fn leave(&mut self, top: Frame)
        ensures
            final(self)@ == (Progress {
                stack: old(self)@.stack.push(top@),
                ..old(self)@
            }).leave(),
    {
        let ghost was = self@;
        let ghost full = Progress { stack: was.stack.push(top@), ..was };
        assert(full.stack.last() == top@);
        assert(full.stack.drop_last() =~= was.stack);
        if top.file < self.journal.files.len() {
            let ghost before = self.journal.files@[top.file as int]@;
            let entry = &mut self.journal.files[top.file];
            entry.eof_pos = self.pos;
            entry.state_at_eof = top.state;
            let ghost after = entry@;
            assert(after == (FileRead {
                eof_pos: was.pos,
                state_at_eof: top@.state,
                ..before
            }));
            assert(self.journal@.files =~= was.book.files.update(top.file as int, after));
        }
    }

    /// Read a line of a file, and with a transaction's header its indented
    /// lines.
    fn read(&mut self, start: Frame) -> (r: Step)
        requires
            start@.at < start@.lines.len(),
        ensures
            (final(self)@, r@) == (Progress {
                stack: old(self)@.stack.push(start@),
                ..old(self)@
            }).read(),
    {
        let ghost was = self@;
        let ghost sv = start@;
        let ghost full = Progress { stack: was.stack.push(sv), ..was };
        assert(full.stack.last() == sv);
        assert(full.stack.drop_last() =~= was.stack);
        let mut top = start;
        let i: usize = top.at;
        let pos: usize = self.pos;
        self.pos = advance(pos, 1);
        let count: usize = top.lines.len();
        assert(i < count);
        top.at = i + 1;
        let line = top.lines[i].as_str().to_owned();
        let line = line.as_str();
        assert(line@ == sv.lines[sv.at]);
        // Inside a `comment` block nothing is journal syntax: not the
        // transactions, not the declarations, and — the one with teeth — not
        // the `include` lines, which hledger does not follow either.
        if top.opaque {
            top.opaque = !lex::closes_comment_block(line);
            self.resume(top);
            return Step::Continue;
        }
        if lex::opens_comment_block(line) {
            top.opaque = true;
            top.open = None;
            self.resume(top);
            return Step::Continue;
        }
        if lex::is_indented_non_blank(line) {
            // An indented line outside a transaction: a subdirective. The
            // only one carrying semantics we use is `format` under
            // `commodity`; everything else stays ignored.
            self.sample(top.open, line);
            self.resume(top);
            return Step::Continue;
        }
        top.open = None;
        if lex::opens_txn(line) {
            return self.transaction(top, i, pos);
        }
        if let Some(pattern) = lex::directive_arg(line, "include") {
            top.pending = Some(
                PendingInclude { line: i, start_pos: self.pos, pattern: pattern.to_owned() },
            );
            let path = top.path.as_str().to_owned();
            self.resume(top);
            return Step::Include { path, pattern: pattern.to_owned() };
        }
        let at = Origin { file: top.file, line: i + 1 };
        let (open, changed) = directive(
            &mut self.journal,
            &mut top.state,
            line,
            top.shown.as_str(),
            at,
            pos,
        );
        top.open = open;
        if changed {
            // A parse-state directive: it takes effect from the next line.
            checkpoint(&mut self.journal, top.file, i + 1, &top.state);
        }
        self.resume(top);
        Step::Continue
    }

    /// Take a `format` line of a `commodity` declaration.
    fn sample(&mut self, open: Option<usize>, line: &str)
        ensures
            final(self)@ == (Progress {
                book: sampled(
                    old(self)@.book,
                    match open {
                        Some(n) => Some(n as int),
                        None => None,
                    },
                    line@,
                ),
                ..old(self)@
            }),
    {
        let ghost was = self@;
        if let Some(ci) = open {
            if let Some(sample) = lex::directive_arg(
                text::trim_start(line, CharClass::White),
                "format",
            ) {
                if ci < self.journal.commodities.len() {
                    let ghost before = self.journal.commodities@[ci as int]@;
                    let decl = &mut self.journal.commodities[ci];
                    decl.sample = Some(sample.to_owned());
                    let ghost after = decl@;
                    assert(after == (CommodityRead { sample: Some(sample@), ..before }));
                    assert(self.journal@.commodities =~= was.book.commodities.update(
                        ci as int,
                        after,
                    ));
                }
            }
        }
    }

    /// Read the transaction whose header is line `i` of a file, past which the
    /// file's progress stands.
    fn transaction(&mut self, start: Frame, i: usize, pos: usize) -> (r: Step)
        requires
            i < start@.lines.len(),
            start@.at == i + 1,
            start@.open is None,
            old(self)@.pos == advanced(pos, 1),
        ensures
            r@ == Ask::Continue,
            ({
                let top = start@;
                let n = indented_run(top.lines.skip(i + 1));
                final(self)@ == (Progress {
                    book: with_txn(
                        old(self)@.book,
                        Reading { at: i as int, ..top },
                        top.lines.subrange(i + 1, i + 1 + n),
                        pos,
                        old(self)@.this_year,
                    ),
                    pos: advanced(old(self)@.pos, n),
                    stack: old(self)@.stack.push(Reading { at: i + 1 + n, ..top }),
                    ..old(self)@
                })
            }),
    {
        let ghost was = self@;
        let ghost sv = start@;
        let mut top = start;
        let ghost all = sv.lines;
        let count: usize = top.lines.len();
        // Consume the posting run along with the header.
        let mut run: Vec<&str> = Vec::new();
        let mut j: usize = i + 1;
        let ghost mut open = true;
        while j < count
            invariant_except_break
                open,
            invariant
                i < j <= count,
                count == top.lines@.len(),
                all == text::texts(top.lines@),
                text::strs(run@) == all.subrange(i + 1, j as int),
                open ==> indented_run(all.skip(i + 1)) == j - i - 1 + indented_run(
                    all.skip(j as int),
                ),
                !open ==> indented_run(all.skip(i + 1)) == j - i - 1,
            ensures
                j == count || !open,
            decreases count - j,
        {
            let l = top.lines[j].as_str();
            assert(all.skip(j as int)[0] == l@);
            if !lex::is_indented_non_blank(l) {
                proof {
                    open = false;
                }
                break;
            }
            let ghost before = text::strs(run@);
            run.push(l);
            assert(text::strs(run@) =~= before.push(l@));
            assert(all.subrange(i + 1, j + 1) =~= all.subrange(i + 1, j as int).push(l@));
            assert(all.skip(j as int).skip(1) =~= all.skip(j + 1));
            j = j + 1;
        }
        let ghost n = indented_run(all.skip(i + 1));
        assert(j == i + 1 + n);
        let parsed = parser::parse_transaction(
            top.lines[i].as_str(),
            run.as_slice(),
            top.file,
            i + 1,
            pos,
            &top.state,
            self.this_year,
        );
        match parsed {
            Ok(t) => {
                let ghost before = parser::txns(self.journal.transactions@);
                let ghost tv = t@;
                self.journal.transactions.push(t);
                assert(parser::txns(self.journal.transactions@) =~= before.push(tv));
            },
            Err(why) => {
                let mut w = text::cat3(
                    top.shown.as_str(),
                    ":",
                    text::digits(i + 1).as_str(),
                );
                w.append(": skipping unparseable transaction (");
                w.append(why.as_str());
                w.append(")");
                warn(&mut self.journal.warnings, w);
            },
        }
        self.pos = advance(self.pos, j - (i + 1));
        top.at = j;
        self.resume(top);
        Step::Continue
    }

    /// Take the files that an `include` line names, none where there are none.
    pub fn answer(&mut self, targets: Vec<IncludeTarget>)
        ensures
            final(self)@ == old(self)@.answered(targets_view(targets@)),
    {
        let ghost was = self@;
        let mut top = match self.frames.pop() {
            None => {
                assert(readings(self.frames@) =~= was.stack);
                return;
            },
            Some(top) => top,
        };
        assert(was.stack.last() == top@);
        assert(readings(self.frames@) =~= was.stack.drop_last());
        assert(was.stack.drop_last().push(top@) =~= was.stack);
        if let Some(p) = &top.pending {
            if targets.len() == 0 {
                let mut w = text::cat3(
                    top.shown.as_str(),
                    ": include not found: ",
                    p.pattern.as_str(),
                );
                w.append(" — accounts and history from it are unavailable");
                warn(&mut self.journal.warnings, w);
            } else {
                top.targets = targets;
            }
        }
        self.resume(top);
    }

    /// The journal as far as it is read.
    #[must_use]
    pub fn finish(self) -> (r: Journal)
        ensures
            r@ == self@.book,
    {
        self.journal
    }
}

// ---- what every step keeps ----

/// Whether a journal holds all that another one declares.
pub open spec fn extends(a: Book, b: Book) -> bool {
    &&& a.accounts.is_prefix_of(b.accounts)
    &&& a.payees.is_prefix_of(b.payees)
    &&& a.tags.is_prefix_of(b.tags)
    &&& a.defaults.is_prefix_of(b.defaults)
    &&& a.transactions.is_prefix_of(b.transactions)
    &&& a.warnings.is_prefix_of(b.warnings)
    &&& a.commodities.len() <= b.commodities.len()
    &&& a.files.len() <= b.files.len()
}

proof fn lemma_directive_extends(
    book: Book,
    state: State,
    line: Seq<char>,
    shown: Seq<char>,
    at: Origin,
    pos: usize,
)
    ensures
        extends(book, directive_spec(book, state, line, shown, at, pos).book),
{
}

/// Declarations, transactions and warnings are never discarded: a step only
/// adds to them.
pub proof fn declarations_are_never_discarded(w: Progress)
    ensures
        extends(w.book, w.step().0.book),
        w.pos <= w.step().0.pos,
{
    if w.stack.len() > 0 {
        let top = w.stack.last();
        if top.targets.len() == 0 && top.pending is None && top.at < top.lines.len() {
            lemma_read_extends(w);
        }
    }
}

#[verifier::spinoff_prover]
proof fn lemma_read_extends(w: Progress)
    requires
        w.stack.len() > 0,
        w.stack.last().at < w.stack.last().lines.len(),
    ensures
        extends(w.book, w.read().0.book),
        w.pos <= w.read().0.pos,
{
    let top = w.stack.last();
    let line = top.lines[top.at];
    lemma_indented_run(top.lines.skip(top.at + 1));
    let at = Origin { file: top.file, line: (top.at + 1) as usize };
    lemma_directive_extends(w.book, top.state, line, top.shown, at, w.pos);
}

proof fn lemma_indented_run(ls: Seq<Seq<char>>)
    ensures
        0 <= indented_run(ls) <= ls.len(),
    decreases ls.len(),
{
    if ls.len() > 0 {
        lemma_indented_run(ls.skip(1));
    }
}

/// Parse state does not escape a file: a step changes only the innermost file,
/// leaves it, or enters another one, which inherits its state.
pub proof fn parse_state_does_not_escape(w: Progress)
    requires
        w.stack.len() > 0,
    ensures
        ({
            let outer = w.stack.drop_last();
            let after = w.step().0.stack;
            ||| after == outer
            ||| after.len() == outer.len() + 1 && after.drop_last() == outer
            ||| after.len() == outer.len() + 2 && after.take(outer.len() as int) == outer
                && after.last().state == w.stack.last().state && after[outer.len() as int].state
                == w.stack.last().state
        }),
{
    let outer = w.stack.drop_last();
    let after = w.step().0.stack;
    if after.len() == outer.len() {
        assert(after =~= outer);
    } else if after.len() == outer.len() + 1 {
        assert(after.drop_last() =~= outer);
    } else {
        assert(after.take(outer.len() as int) =~= outer);
    }
}

/// The files read so far are those visited, each once.
pub open spec fn each_file_once(w: Progress) -> bool {
    &&& w.visited == w.book.files.map_values(|f: FileRead| f.canonical)
    &&& w.visited.no_duplicates()
}

/// No file is read twice: the walk begins with none read, and a step reads a
/// file only if it has not been read before.
pub proof fn no_file_is_read_twice(w: Progress, this_year: i32)
    ensures
        each_file_once(Progress::start(this_year)),
        each_file_once(w) ==> each_file_once(w.step().0),
{
    assert(Progress::start(this_year).visited =~= Progress::start(
        this_year,
    ).book.files.map_values(|f: FileRead| f.canonical));
    if each_file_once(w) {
        let after = w.step().0;
        assert(after.visited =~= after.book.files.map_values(|f: FileRead| f.canonical));
        if after.visited.len() > w.visited.len() {
            let key = after.visited.last();
            assert(after.visited =~= w.visited.push(key));
            assert(!w.visited.contains(key));
        }
    }
}

} // verus!
