//! What a journal says, over its whole include tree.
//!
//! There are **two** directive scope models, empirically distinct:
//!
//! 1. *Parse state* (`decimal-mark`, `D`, `Y`, `apply account`, `alias`) —
//!    file-scoped, inherited by included files, discarded when the include
//!    returns.
//! 2. *Declarations* (`account`, `commodity`, `payee`, `tag`) — journal-wide,
//!    never discarded, but visible only from their flattened-stream position
//!    forward.
//!
//! Transactions are parsed lexically, not semantically: the amount side of a
//! posting stays opaque text. A historical number is never interpreted.
//!
//! Account names, by contrast, *are* interpreted — they have to be. Under an
//! `apply account` block or an `alias`, the text in the file is not the
//! account hledger sees, and an index full of half-names would poison
//! completion silently. See [`crate::add::scope`].

use vstd::prelude::*;
use vstd::string::*;
use crate::add::scope::{Rewrites, Scope};
use crate::amount::{AmountCtx, Ctx};
use crate::date::{self, Date, Day};
use crate::fmt::tree;
use crate::lex;
use crate::style;
use crate::text::{self, CharClass};

verus! {

// ---- what is read ----

/// What a [`ParseState`] says.
#[verifier::ext_equal]
pub struct State {
    pub decimal_mark: Option<char>,
    pub default_commodity: Option<Seq<char>>,
    pub year: Option<i32>,
    pub scope: Rewrites,
}

impl State {
    pub open spec fn initial() -> State {
        State { decimal_mark: None, default_commodity: None, year: None, scope: Rewrites::none() }
    }
}

/// What a [`Declaration`] says.
#[verifier::ext_equal]
pub struct Decl {
    pub name: Seq<char>,
    pub pos: usize,
}

/// What a [`CommodityDecl`] says.
#[verifier::ext_equal]
pub struct CommodityRead {
    pub name: Seq<char>,
    pub sample: Option<Seq<char>>,
    pub pos: usize,
}

/// What a [`RawPosting`] says.
#[verifier::ext_equal]
pub struct PostingRead {
    pub account: Seq<char>,
    pub amount: Seq<char>,
    pub commodity: Option<Seq<char>>,
    pub comment: Option<Seq<char>>,
}

/// What a [`Transaction`] says.
#[verifier::ext_equal]
pub struct Txn {
    pub date: Day,
    pub description: Seq<char>,
    pub comment: Option<Seq<char>>,
    pub postings: Seq<PostingRead>,
    pub file: usize,
    pub line: usize,
    pub pos: usize,
}

/// What a [`SourceFile`] says.
#[verifier::ext_equal]
pub struct FileRead {
    pub path: Seq<char>,
    pub canonical: Seq<char>,
    pub start_pos: usize,
    pub eof_pos: usize,
    pub state_at_eof: State,
    pub includes: Seq<IncludeSpan>,
    pub states: Seq<(usize, State)>,
}

/// What a [`Journal`] says.
#[verifier::ext_equal]
pub struct Book {
    pub files: Seq<FileRead>,
    pub accounts: Seq<Decl>,
    pub commodities: Seq<CommodityRead>,
    pub defaults: Seq<Decl>,
    pub payees: Seq<Decl>,
    pub tags: Seq<Decl>,
    pub transactions: Seq<Txn>,
    pub warnings: Seq<Seq<char>>,
}

/// Parse state — scope model 1.
///
/// In effect from its line to the end of its file, propagates into included
/// files, does not escape back to the parent.
#[derive(Debug)]
pub struct ParseState {
    /// `decimal-mark` directive in effect, if any.
    pub decimal_mark: Option<char>,
    /// `D` directive's sample amount (raw text, e.g. `1000.00 EUR`), if any.
    pub default_commodity: Option<String>,
    /// `Y`/`year` directive in effect. `None` means partial dates fall back to
    /// the current year, which is what hledger does.
    pub year: Option<i32>,
    /// `apply account` / `alias` rewriting in effect.
    pub scope: Scope,
}

impl View for ParseState {
    type V = State;

    open spec fn view(&self) -> State {
        State {
            decimal_mark: self.decimal_mark,
            default_commodity: text::opt_text(self.default_commodity),
            year: self.year,
            scope: self.scope@,
        }
    }
}

impl Default for ParseState {
    fn default() -> (r: Self)
        ensures
            r@ == State::initial(),
    {
        ParseState {
            decimal_mark: None,
            default_commodity: None,
            year: None,
            scope: Scope::default(),
        }
    }
}

impl Clone for ParseState {
    fn clone(&self) -> (r: Self)
        ensures
            r@ == self@,
    {
        ParseState {
            decimal_mark: self.decimal_mark,
            default_commodity: text::copy_opt(&self.default_commodity),
            year: self.year,
            scope: self.scope.clone(),
        }
    }
}

/// A declared account — scope model 2.
#[derive(Debug, Clone)]
pub struct Declaration {
    /// Account name.
    pub name: String,
    /// Position in the flattened stream; the declaration is visible from here
    /// forward.
    pub pos: usize,
}

impl View for Declaration {
    type V = Decl;

    open spec fn view(&self) -> Decl {
        Decl { name: self.name@, pos: self.pos }
    }
}

/// A declared commodity — scope model 2.
#[derive(Debug, Clone)]
pub struct CommodityDecl {
    /// Commodity symbol, e.g. `EUR`.
    pub name: String,
    /// The directive's sample amount when it carried one (`1_000.00 EUR`),
    /// raw. Carries the display style.
    pub sample: Option<String>,
    /// Position in the flattened stream.
    pub pos: usize,
}

impl View for CommodityDecl {
    type V = CommodityRead;

    open spec fn view(&self) -> CommodityRead {
        CommodityRead { name: self.name@, sample: text::opt_text(self.sample), pos: self.pos }
    }
}

/// One posting of a historical transaction. The amount side is opaque text.
#[derive(Debug, Clone)]
pub struct RawPosting {
    /// Account name, **resolved** — `apply account` and `alias` applied, so
    /// this is the name hledger sees, not necessarily the text in the file.
    pub account: String,
    /// Everything after the account/amount separator, verbatim (amount, cost,
    /// assertion — but not the inline comment). Empty for a bare posting.
    pub amount: String,
    /// The commodity token extracted lexically from `amount`, when the lexer
    /// finds one. Used for completion pools only, never for arithmetic.
    pub commodity: Option<String>,
    /// The posting's inline comment including the leading `;`, if any. Feeds
    /// the tag pool and comment pre-fill.
    pub comment: Option<String>,
}

impl View for RawPosting {
    type V = PostingRead;

    open spec fn view(&self) -> PostingRead {
        PostingRead {
            account: self.account@,
            amount: self.amount@,
            commodity: text::opt_text(self.commodity),
            comment: text::opt_text(self.comment),
        }
    }
}

/// A historical transaction, parsed lexically.
#[derive(Debug, Clone)]
pub struct Transaction {
    /// Primary date, fully resolved.
    pub date: Date,
    /// Description as written, status marker and inline comment stripped.
    pub description: String,
    /// The header's inline comment including the leading `;`, if any.
    pub comment: Option<String>,
    /// Postings in order.
    pub postings: Vec<RawPosting>,
    /// Index into [`Journal::files`].
    pub file: usize,
    /// 1-based line of the header within its file.
    pub line: usize,
    /// Position of the header in the flattened stream.
    pub pos: usize,
}

impl View for Transaction {
    type V = Txn;

    open spec fn view(&self) -> Txn {
        Txn {
            date: self.date@,
            description: self.description@,
            comment: text::opt_text(self.comment),
            postings: raw_postings(self.postings@),
            file: self.file,
            line: self.line,
            pos: self.pos,
        }
    }
}

/// An `include` line and the span of the stream its target occupies.
#[derive(Debug, Clone, Copy, PartialEq, Eq, Structural)]
pub struct IncludeSpan {
    /// 0-based index of the `include` line within its own file.
    pub line: usize,
    /// Stream positions the included subtree occupies: `[start, end)`.
    pub start_pos: usize,
    /// One past the subtree's last position.
    pub end_pos: usize,
}

/// One file of the include tree.
#[derive(Debug)]
pub struct SourceFile {
    /// Path as resolved (absolute).
    pub path: String,
    /// The path by which the file is recognised when it is met again.
    pub canonical: String,
    /// Stream position of the file's first line. Declarations before it are
    /// the ones hledger has already read when it starts parsing this file —
    /// which is what decides how the file's own amounts are read.
    pub start_pos: usize,
    /// Stream position just past the file's last line. Appending to this file
    /// inserts at this position — the new-account guard filters declarations
    /// against it.
    pub eof_pos: usize,
    /// Parse state in effect at the end of the file. Text appended to the
    /// file is parsed under this state.
    pub state_at_eof: ParseState,
    /// The file's own `include` lines, in order, with the span of the stream
    /// each one pulls in. What those files declare comes into effect at that
    /// line, not before it.
    pub includes: Vec<IncludeSpan>,
    /// Parse state checkpoints: `(0-based line, state in effect from there)`,
    /// ascending. `insertion = chronological` can land anywhere in the file,
    /// including inside a *closed* `apply account` region, so the write path
    /// needs the state at an arbitrary line rather than only at eof.
    pub states: Vec<(usize, ParseState)>,
}

impl View for SourceFile {
    type V = FileRead;

    open spec fn view(&self) -> FileRead {
        FileRead {
            path: self.path@,
            canonical: self.canonical@,
            start_pos: self.start_pos,
            eof_pos: self.eof_pos,
            state_at_eof: self.state_at_eof@,
            includes: self.includes@,
            states: checkpoints(self.states@),
        }
    }
}

/// The semantic product of the parse, over the whole include tree.
#[derive(Debug)]
pub struct Journal {
    /// Files in depth-first encounter order; index 0 is the main file.
    pub files: Vec<SourceFile>,
    /// `account` declarations with stream positions.
    pub accounts: Vec<Declaration>,
    /// `commodity` declarations with stream positions.
    pub commodities: Vec<CommodityDecl>,
    /// `D` directives: the sample amount as written, with stream positions.
    pub defaults: Vec<Declaration>,
    /// `payee` declarations with stream positions.
    pub payees: Vec<Declaration>,
    /// `tag` declarations with stream positions.
    pub tags: Vec<Declaration>,
    /// Transactions in stream order.
    pub transactions: Vec<Transaction>,
    /// Non-fatal problems (missing includes, skipped transactions).
    pub warnings: Vec<String>,
}

impl View for Journal {
    type V = Book;

    open spec fn view(&self) -> Book {
        Book {
            files: files_read(self.files@),
            accounts: decls(self.accounts@),
            commodities: commodities_read(self.commodities@),
            defaults: decls(self.defaults@),
            payees: decls(self.payees@),
            tags: decls(self.tags@),
            transactions: txns(self.transactions@),
            warnings: text::texts(self.warnings@),
        }
    }
}

pub open spec fn raw_postings(v: Seq<RawPosting>) -> Seq<PostingRead> {
    v.map_values(|p: RawPosting| p@)
}

pub open spec fn checkpoints(v: Seq<(usize, ParseState)>) -> Seq<(usize, State)> {
    v.map_values(|c: (usize, ParseState)| (c.0, c.1@))
}

pub open spec fn files_read(v: Seq<SourceFile>) -> Seq<FileRead> {
    v.map_values(|f: SourceFile| f@)
}

pub open spec fn decls(v: Seq<Declaration>) -> Seq<Decl> {
    v.map_values(|d: Declaration| d@)
}

pub open spec fn commodities_read(v: Seq<CommodityDecl>) -> Seq<CommodityRead> {
    v.map_values(|d: CommodityDecl| d@)
}

pub open spec fn txns(v: Seq<Transaction>) -> Seq<Txn> {
    v.map_values(|t: Transaction| t@)
}

impl Book {
    pub open spec fn nothing() -> Book {
        Book {
            files: Seq::empty(),
            accounts: Seq::empty(),
            commodities: Seq::empty(),
            defaults: Seq::empty(),
            payees: Seq::empty(),
            tags: Seq::empty(),
            transactions: Seq::empty(),
            warnings: Seq::empty(),
        }
    }
}

impl Default for Journal {
    fn default() -> (r: Self)
        ensures
            r@ == Book::nothing(),
    {
        let r = Journal {
            files: Vec::new(),
            accounts: Vec::new(),
            commodities: Vec::new(),
            defaults: Vec::new(),
            payees: Vec::new(),
            tags: Vec::new(),
            transactions: Vec::new(),
            warnings: Vec::new(),
        };
        assert(r@ =~= Book::nothing());
        r
    }
}

// ---- asking a journal ----

/// The last checkpoint at or before a line, else the state at the end.
pub open spec fn state_at_spec(states: Seq<(usize, State)>, line: usize, at_eof: State) -> State
    decreases states.len(),
{
    if states.len() == 0 {
        at_eof
    } else if states.last().0 <= line {
        states.last().1
    } else {
        state_at_spec(states.drop_last(), line, at_eof)
    }
}

impl SourceFile {
    /// The parse state in effect at 0-based `line` of this file.
    #[must_use]
    pub fn state_at(&self, line: usize) -> (r: &ParseState)
        ensures
            r@ == state_at_spec(self@.states, line, self@.state_at_eof),
    {
        let ghost all = self@.states;
        let mut i: usize = self.states.len();
        assert(all.take(all.len() as int) =~= all);
        while i > 0
            invariant
                i <= self.states@.len(),
                all == self@.states,
                state_at_spec(all, line, self@.state_at_eof) == state_at_spec(
                    all.take(i as int),
                    line,
                    self@.state_at_eof,
                ),
            decreases i,
        {
            assert(all.take(i as int).last() == (self.states@[i - 1].0, self.states@[i - 1].1@));
            assert(all.take(i as int).drop_last() =~= all.take(i - 1));
            i = i - 1;
            if self.states[i].0 <= line {
                return &self.states[i].1;
            }
        }
        &self.state_at_eof
    }
}

/// The names declared before a position.
pub open spec fn visible_at_spec(ds: Seq<Decl>, pos: usize) -> Seq<Seq<char>>
    decreases ds.len(),
{
    if ds.len() == 0 {
        Seq::empty()
    } else {
        let before = visible_at_spec(ds.drop_last(), pos);
        if ds.last().pos < pos {
            before.push(ds.last().name)
        } else {
            before
        }
    }
}

/// The declarations of one kind visible at `pos` in the flattened stream.
fn visible_at(ds: &[Declaration], pos: usize) -> (r: Vec<&str>)
    ensures
        text::strs(r@) == visible_at_spec(decls(ds@), pos),
{
    let ghost all = decls(ds@);
    let mut out: Vec<&str> = Vec::new();
    let mut i: usize = 0;
    assert(text::strs(out@) =~= visible_at_spec(all.take(0), pos));
    while i < ds.len()
        invariant
            i <= ds@.len(),
            all == decls(ds@),
            text::strs(out@) == visible_at_spec(all.take(i as int), pos),
        decreases ds@.len() - i,
    {
        assert(all.take(i + 1).drop_last() =~= all.take(i as int));
        assert(all.take(i + 1).last() == ds@[i as int]@);
        if ds[i].pos < pos {
            let ghost before = text::strs(out@);
            let name = ds[i].name.as_str();
            out.push(name);
            assert(text::strs(out@) =~= before.push(name@));
        }
        i = i + 1;
    }
    assert(all.take(all.len() as int) =~= all);
    out
}

/// What the `D` directives at positions from `lo` up to `hi` declare: each its
/// commodity's style, the last of them the fallback.
pub open spec fn defaults_between(ds: Seq<Decl>, lo: usize, hi: usize) -> Ctx
    decreases ds.len(),
{
    if ds.len() == 0 {
        Ctx::bare()
    } else {
        let before = defaults_between(ds.drop_last(), lo, hi);
        if lo <= ds.last().pos < hi {
            match style::style_from_sample_spec(ds.last().name) {
                Some(named) => Ctx {
                    styles: before.styles.insert(named.0, named.1),
                    default_style: Some(named.1),
                    ..before
                },
                None => before,
            }
        } else {
            before
        }
    }
}

/// What the `commodity` directives at positions from `lo` up to `hi` declare on
/// top of what is declared already.
pub open spec fn commodities_between(
    start: Ctx,
    cs: Seq<CommodityRead>,
    lo: usize,
    hi: usize,
) -> Ctx
    decreases cs.len(),
{
    if cs.len() == 0 {
        start
    } else {
        let before = commodities_between(start, cs.drop_last(), lo, hi);
        match (lo <= cs.last().pos < hi, cs.last().sample) {
            (true, Some(sample)) => match style::style_from_sample_spec(sample) {
                Some(named) => Ctx {
                    styles: before.styles.insert(named.0, named.1),
                    ..before
                },
                None => before,
            },
            _ => before,
        }
    }
}

/// Where a path stands among files.
pub open spec fn index_spec(files: Seq<FileRead>, canonical: Seq<char>) -> Option<int>
    decreases files.len(),
{
    if files.len() == 0 {
        None
    } else if files[0].canonical == canonical {
        Some(0)
    } else {
        match index_spec(files.skip(1), canonical) {
            Some(i) => Some(i + 1),
            None => None,
        }
    }
}

impl Book {
    /// The styles declared at positions from `lo` up to `hi`. A `commodity`
    /// style outranks a `D` style, whichever came first.
    pub open spec fn styles_between(self, lo: usize, hi: usize) -> Ctx {
        commodities_between(
            defaults_between(self.defaults, lo, hi),
            self.commodities,
            lo,
            hi,
        )
    }

    /// The styles that a file inherits, with the lines they arrive on.
    pub open spec fn inherited(self, idx: int) -> Seq<(usize, Ctx)> {
        if 0 <= idx < self.files.len() {
            seq![(0usize, self.styles_between(0, self.files[idx].start_pos))]
                + self.files[idx].includes.map_values(
                |inc: IncludeSpan|
                    (inc.line, self.styles_between(inc.start_pos, inc.end_pos)),
            )
        } else {
            Seq::empty()
        }
    }
}

impl Journal {
    /// Declared account names visible at `pos` in the flattened stream.
    #[must_use]
    pub fn accounts_visible_at(&self, pos: usize) -> (r: Vec<&str>)
        ensures
            text::strs(r@) == visible_at_spec(self@.accounts, pos),
    {
        visible_at(self.accounts.as_slice(), pos)
    }

    /// Whether any `account` directives exist anywhere in the tree (drives the
    /// `new_account` guard default).
    #[must_use]
    pub fn declares_accounts(&self) -> (r: bool)
        ensures
            r == (self@.accounts.len() > 0),
    {
        self.accounts.len() > 0
    }

    /// Declared payee names visible at `pos` — what `hledger check payees`
    /// would accept there.
    #[must_use]
    pub fn payees_visible_at(&self, pos: usize) -> (r: Vec<&str>)
        ensures
            text::strs(r@) == visible_at_spec(self@.payees, pos),
    {
        visible_at(self.payees.as_slice(), pos)
    }

    /// Declared tag names visible at `pos`.
    #[must_use]
    pub fn tags_visible_at(&self, pos: usize) -> (r: Vec<&str>)
        ensures
            text::strs(r@) == visible_at_spec(self@.tags, pos),
    {
        visible_at(self.tags.as_slice(), pos)
    }

    /// The file entry for a canonical path, if it is part of the include tree.
    #[must_use]
    pub fn file(&self, canonical: &str) -> (r: Option<&SourceFile>)
        ensures
            (match r {
                Some(f) => Some(f@),
                None => None,
            }) == (match index_spec(self@.files, canonical@) {
                Some(i) => Some(self@.files[i]),
                None => None,
            }),
    {
        match self.file_index(canonical) {
            Some(i) => Some(&self.files[i]),
            None => None,
        }
    }

    /// The index of a canonical path in [`Journal::files`], if it is part of
    /// the tree.
    #[must_use]
    pub fn file_index(&self, canonical: &str) -> (r: Option<usize>)
        ensures
            match r {
                Some(i) => i < self.files@.len() && index_spec(self@.files, canonical@) == Some(
                    i as int,
                ),
                None => index_spec(self@.files, canonical@) is None,
            },
    {
        let ghost all = self@.files;
        let mut i: usize = 0;
        assert(all.skip(0) =~= all);
        while i < self.files.len()
            invariant
                i <= self.files@.len(),
                all == self@.files,
                index_spec(all, canonical@) == (match index_spec(all.skip(i as int), canonical@) {
                    Some(j) => Some(j + i),
                    None => None,
                }),
            decreases self.files@.len() - i,
        {
            assert(all.skip(i as int)[0] == self.files@[i as int]@);
            if text::same(self.files[i].canonical.as_str(), canonical) {
                return Some(i);
            }
            assert(all.skip(i as int).skip(1) =~= all.skip(i + 1));
            i = i + 1;
        }
        None
    }

    /// The file that new transactions are written to: the main file, or
    /// another that was asked for by its canonical path, if it is part of the
    /// tree.
    #[must_use]
    pub fn write_target(&self, main: &str, to: Option<&str>) -> (r: Option<String>)
        ensures
            text::opt_text(r) == (match text::opt_str(to) {
                None => Some(main@),
                Some(canonical) => match index_spec(self@.files, canonical) {
                    Some(i) => Some(self@.files[i].path),
                    None => None,
                },
            }),
    {
        match to {
            None => Some(main.to_owned()),
            Some(canonical) => match self.file(canonical) {
                Some(f) => Some(f.path.as_str().to_owned()),
                None => None,
            },
        }
    }

    /// The styles a file inherits from the tree, or all of the tree's where it
    /// is no part of it.
    #[must_use]
    pub fn styles_for(&self, canonical: &str) -> (r: Vec<(usize, AmountCtx)>)
        ensures
            tree::ctxs(r@) == (match index_spec(self@.files, canonical@) {
                Some(i) => self@.inherited(i),
                None => seq![(0usize, self@.styles_between(0, usize::MAX))],
            }),
    {
        match self.file_index(canonical) {
            Some(i) => self.inherited_styles(i),
            None => {
                let mut all: Vec<(usize, AmountCtx)> = Vec::new();
                all.push((0, self.amount_ctx()));
                assert(tree::ctxs(all@) =~= seq![
                    (0usize, self@.styles_between(0, usize::MAX)),
                ]);
                all
            },
        }
    }

    /// Declared display styles over the whole include tree, for amount
    /// parsing and restyling.
    ///
    /// Everything the tree declares, wherever it stands. Right for a caller
    /// reading amounts at the end of the tree — which is where `add` inserts
    /// — and wrong for one reading them in the middle of it, which wants
    /// [`Journal::amount_ctx_at`].
    #[must_use]
    pub fn amount_ctx(&self) -> (r: AmountCtx)
        ensures
            r@ == self@.styles_between(0, usize::MAX),
    {
        self.amount_ctx_at(usize::MAX)
    }

    /// The declared display styles the file at index `idx` inherits, as a
    /// line-indexed list: what is in effect where the file begins, followed
    /// by what each of its `include` lines brings in, at that line.
    ///
    /// hledger reads a journal top to bottom and follows each `include` where
    /// it stands, so a style is in effect from its own declaration onward and
    /// no earlier. That is not bookkeeping: reading `1,234 GBP` turns on
    /// whether the `,` groups digits or marks the decimal, and a style
    /// declared below the amount does not answer it. The file's own
    /// directives are absent here — the formatter reads those as it goes.
    #[must_use]
    pub fn inherited_styles(&self, idx: usize) -> (r: Vec<(usize, AmountCtx)>)
        ensures
            tree::ctxs(r@) == self@.inherited(idx as int),
    {
        let mut out: Vec<(usize, AmountCtx)> = Vec::new();
        let ghost want = self@.inherited(idx as int);
        if idx < self.files.len() {
            let file = &self.files[idx];
            out.push((0, self.amount_ctx_at(file.start_pos)));
            assert(tree::ctxs(out@) =~= want.take(1));
            let mut i: usize = 0;
            while i < file.includes.len()
                invariant
                    i <= file.includes@.len(),
                    idx < self.files@.len(),
                    file == self.files@[idx as int],
                    want == self@.inherited(idx as int),
                    tree::ctxs(out@) == want.take(1 + i),
                decreases file.includes@.len() - i,
            {
                let inc = file.includes[i];
                let ghost before = tree::ctxs(out@);
                let ctx = self.styles_between(inc.start_pos, inc.end_pos);
                assert(want[1 + i] == (inc.line, ctx@));
                out.push((inc.line, ctx));
                assert(tree::ctxs(out@) =~= before.push((inc.line, ctx@)));
                assert(want.take(2 + i) =~= want.take(1 + i).push(want[1 + i]));
                i = i + 1;
            }
        }
        assert(tree::ctxs(out@) =~= want);
        out
    }

    /// The declared display styles in effect at `pos` in the flattened
    /// stream: those declared before it, and no others.
    ///
    /// hledger parses a journal top to bottom, following each `include` where
    /// it stands, so a directive further down has not been read yet when an
    /// amount above it is parsed. That matters beyond bookkeeping: reading
    /// `1,234 GBP` needs to know whether the `,` groups digits or marks the
    /// decimal, and hledger answers with the declarations it has seen so far.
    ///
    /// A `commodity` style outranks a `D` style for the same commodity,
    /// whichever came first.
    #[must_use]
    pub fn amount_ctx_at(&self, pos: usize) -> (r: AmountCtx)
        ensures
            r@ == self@.styles_between(0, pos),
    {
        self.styles_between(0, pos)
    }

    /// The styles declared by the directives at positions from `lo` up to `hi`.
    fn styles_between(&self, lo: usize, hi: usize) -> (r: AmountCtx)
        ensures
            r@ == self@.styles_between(lo, hi),
    {
        let mut ctx = AmountCtx::default();
        let ghost ds = self@.defaults;
        let mut i: usize = 0;
        assert(ds.take(0) =~= Seq::empty());
        while i < self.defaults.len()
            invariant
                i <= self.defaults@.len(),
                ds == self@.defaults,
                ctx@ == defaults_between(ds.take(i as int), lo, hi),
            decreases self.defaults@.len() - i,
        {
            let d = &self.defaults[i];
            assert(ds.take(i + 1).drop_last() =~= ds.take(i as int));
            assert(ds.take(i + 1).last() == d@);
            if lo <= d.pos && d.pos < hi {
                if let Some(named) = crate::amount::style_from_sample(d.name.as_str()) {
                    // `D` also supplies the decimal mark for reading an amount in
                    // any commodity that declares no style of its own — the one
                    // journal-wide parsing fallback hledger has.
                    let (name, style) = named;
                    ctx.styles.insert(name, style.duplicate());
                    ctx.default_style = Some(style);
                }
            }
            i = i + 1;
        }
        assert(ds.take(ds.len() as int) =~= ds);
        // Applied second, so a `commodity` style wins wherever it stands.
        let ghost start = ctx@;
        let ghost cs = self@.commodities;
        let mut j: usize = 0;
        assert(cs.take(0) =~= Seq::empty());
        while j < self.commodities.len()
            invariant
                j <= self.commodities@.len(),
                cs == self@.commodities,
                ctx@ == commodities_between(start, cs.take(j as int), lo, hi),
            decreases self.commodities@.len() - j,
        {
            let c = &self.commodities[j];
            assert(cs.take(j + 1).drop_last() =~= cs.take(j as int));
            assert(cs.take(j + 1).last() == c@);
            if lo <= c.pos && c.pos < hi {
                if let Some(sample) = &c.sample {
                    if let Some(named) = crate::amount::style_from_sample(sample.as_str()) {
                        let (name, style) = named;
                        ctx.styles.insert(name, style);
                    }
                }
            }
            j = j + 1;
        }
        assert(cs.take(cs.len() as int) =~= cs);
        ctx
    }
}

// ---- reading one entry ----

/// What a `commodity` directive declares: a bare symbol (`USD`), a sample
/// amount with a separate symbol (`1_000.00 EUR`), or one with an attached
/// symbol (`$1000.00`).
pub open spec fn parse_commodity_spec(sample: Seq<char>, pos: usize) -> CommodityRead {
    let fields = lex::split_amount_spec(text::words_spec(sample));
    if fields.1.len() > 0 {
        CommodityRead { name: fields.1, sample: Some(sample), pos }
    } else {
        match style::style_from_sample_spec(sample) {
            Some(named) => CommodityRead { name: named.0, sample: Some(sample), pos },
            None => CommodityRead { name: fields.0, sample: None, pos },
        }
    }
}

/// Parse a `commodity` directive argument: a bare symbol (`USD`), a sample
/// amount with a separate symbol (`1_000.00 EUR`), or one with an attached
/// symbol (`$1000.00`).
pub(crate) fn parse_commodity(sample: &str, pos: usize) -> (r: CommodityDecl)
    ensures
        r@ == parse_commodity_spec(sample@, pos),
{
    let toks = text::words(sample);
    let fields = lex::split_amount(toks.as_slice());
    if !fields.1.as_str().is_empty() {
        return CommodityDecl { name: fields.1, sample: Some(sample.to_owned()), pos };
    }
    // An attached symbol still carries a style; a bare symbol does not.
    match crate::amount::style_from_sample(sample) {
        Some(named) => CommodityDecl { name: named.0, sample: Some(sample.to_owned()), pos },
        None => CommodityDecl { name: fields.0, sample: None, pos },
    }
}

/// What an indented line of a transaction says, if it is a posting.
pub open spec fn parse_posting_spec(l: Seq<char>, scope: Rewrites) -> Option<PostingRead> {
    let s = lex::rstrip_spec(text::trim_start_spec(l, CharClass::White));
    let body = lex::split_comment_spec(s);
    let fields = lex::split_account_spec(body.0);
    let account = lex::strip_status_spec(fields.0);
    if (s.len() > 0 && s[0] == ';') || account.len() == 0 {
        None
    } else {
        Some(
            PostingRead {
                account: scope.resolve(account),
                amount: fields.1,
                commodity: lex::non_empty_spec(
                    lex::split_amount_spec(text::words_spec(fields.1)).1,
                ),
                comment: body.1,
            },
        )
    }
}

/// The postings among the indented lines of a transaction.
pub open spec fn parse_postings_spec(run: Seq<Seq<char>>, scope: Rewrites) -> Seq<PostingRead>
    decreases run.len(),
{
    if run.len() == 0 {
        Seq::empty()
    } else {
        let before = parse_postings_spec(run.drop_last(), scope);
        match parse_posting_spec(run.last(), scope) {
            Some(p) => before.push(p),
            None => before,
        }
    }
}

/// The date token and the rest of a transaction header.
pub open spec fn header_parts(body: Seq<char>) -> (Seq<char>, Seq<char>) {
    match text::find_spec(body, CharClass::White) {
        Some(i) => (body.take(i), body.skip(i + 1)),
        None => (body, Seq::empty()),
    }
}

/// A text as `{:?}` writes it.
pub uninterp spec fn quoted(s: Seq<char>) -> Seq<char>;

/// `str`'s `Debug` of std: the text in quotes, with what cannot be printed
/// escaped. The text decides the result.
#[verifier::external_body]
pub(crate) fn quote(s: &str) -> (r: String)
    ensures
        r@ == quoted(s@),
{
    format!("{s:?}")
}

/// What a transaction says, or why it cannot be read.
pub open spec fn parse_transaction_spec(
    header: Seq<char>,
    run: Seq<Seq<char>>,
    file: usize,
    line: usize,
    pos: usize,
    state: State,
    this_year: i32,
) -> Result<Txn, Seq<char>> {
    let whole = lex::split_comment_spec(header);
    let parts = header_parts(whole.0);
    let year = match state.year {
        Some(y) => y,
        None => this_year,
    };
    match date::parse_date_spec(parts.0, year as int) {
        None => Err("bad date "@ + quoted(parts.0)),
        Some(date) => Ok(
            Txn {
                date,
                description: lex::strip_status_spec(parts.1),
                comment: whole.1,
                postings: parse_postings_spec(run, state.scope),
                file,
                line,
                pos,
            },
        ),
    }
}

/// An optional text, owned.
pub(crate) fn own(o: Option<&str>) -> (r: Option<String>)
    ensures
        text::opt_text(r) == text::opt_str(o),
{
    match o {
        Some(s) => Some(s.to_owned()),
        None => None,
    }
}

/// What an indented line of a transaction says, if it is a posting.
fn parse_posting(l: &str, scope: &Scope) -> (r: Option<RawPosting>)
    ensures
        (match r {
            Some(p) => Some(p@),
            None => None,
        }) == parse_posting_spec(l@, scope@),
{
    let s = lex::rstrip(text::trim_start(l, CharClass::White));
    if text::starts_in(s, CharClass::Is(';')) {
        return None;  // in-transaction comment line
    }
    let (body, comment) = lex::split_comment(s);
    let (account, amount) = lex::split_account_amount(body);
    // A posting may carry a status flag of its own (`* assets:bank`). It is
    // not part of the account name, and indexing it as one made an account
    // that is already in the journal read as new — no completion for it, and
    // strict mode asking about it every time.
    let account = lex::strip_status(account);
    if account.is_empty() {
        return None;
    }
    let toks = text::words(amount);
    let fields = lex::split_amount(toks.as_slice());
    Some(
        RawPosting {
            // Resolved, so the index holds the account hledger sees rather
            // than the remainder the file happens to spell it with.
            account: scope.resolve(account),
            amount: amount.to_owned(),
            commodity: if fields.1.as_str().is_empty() {
                None
            } else {
                Some(fields.1)
            },
            comment: own(comment),
        },
    )
}

/// Parse a transaction header plus its indented run, lexically. A partial
/// date takes the `Y` directive in effect, else `this_year`.
pub fn parse_transaction(
    header: &str,
    run: &[&str],
    file: usize,
    line: usize,
    pos: usize,
    state: &ParseState,
    this_year: i32,
) -> (r: Result<Transaction, String>)
    ensures
        (match r {
            Ok(t) => Ok(t@),
            Err(why) => Err(why@),
        }) == parse_transaction_spec(
            header@,
            text::strs(run@),
            file,
            line,
            pos,
            state@,
            this_year,
        ),
{
    let (body, comment) = lex::split_comment(header);
    let (date_tok, rest) = match text::find(body, CharClass::White) {
        Some(i) => {
            proof {
                text::lemma_run(body@, CharClass::White, false);
            }
            (text::prefix(body, i), text::suffix(body, i + 1))
        },
        None => {
            proof {
                reveal_strlit("");
                assert(""@ =~= Seq::<char>::empty());
            }
            (body, "")
        },
    };
    assert((date_tok@, rest@) == header_parts(body@));
    let year: i32 = match state.year {
        Some(y) => y,
        None => this_year,
    };
    let date = match date::parse_date(date_tok, year) {
        Some(d) => d,
        None => {
            return Err(text::cat("bad date ", quote(date_tok).as_str()));
        },
    };
    let mut postings: Vec<RawPosting> = Vec::new();
    let ghost all = text::strs(run@);
    let mut i: usize = 0;
    assert(raw_postings(postings@) =~= parse_postings_spec(all.take(0), state@.scope));
    while i < run.len()
        invariant
            i <= run@.len(),
            all == text::strs(run@),
            raw_postings(postings@) == parse_postings_spec(all.take(i as int), state@.scope),
        decreases run@.len() - i,
    {
        assert(all.take(i + 1).drop_last() =~= all.take(i as int));
        assert(all.take(i + 1).last() == run@[i as int]@);
        if let Some(p) = parse_posting(run[i], &state.scope) {
            let ghost before = raw_postings(postings@);
            let ghost pv = p@;
            postings.push(p);
            assert(raw_postings(postings@) =~= before.push(pv));
        }
        i = i + 1;
    }
    assert(all.take(all.len() as int) =~= all);
    Ok(
        Transaction {
            date,
            description: lex::strip_status(rest).to_owned(),
            comment: own(comment),
            postings,
            file,
            line,
            pos,
        },
    )
}

/// The year of a `Y 2019` / `year 2019` directive.
pub open spec fn year_directive_spec(line: Seq<char>) -> Option<int> {
    match lex::directive_arg_spec(line, "Y"@) {
        Some(arg) => text::number_between(arg, i32::MIN as int, i32::MAX as int),
        None => match lex::directive_arg_spec(line, "year"@) {
            Some(arg) => text::number_between(arg, i32::MIN as int, i32::MAX as int),
            None => None,
        },
    }
}

/// The year of a `Y 2019` / `year 2019` directive.
pub(crate) fn year_directive(line: &str) -> (r: Option<i32>)
    ensures
        match r {
            Some(y) => year_directive_spec(line@) == Some(y as int),
            None => year_directive_spec(line@) is None,
        },
{
    match lex::directive_arg(line, "Y") {
        Some(arg) => text::parse_i32(arg),
        None => match lex::directive_arg(line, "year") {
            Some(arg) => text::parse_i32(arg),
            None => None,
        },
    }
}

/// The warnings of a journal, one to a line.
#[must_use]
pub fn warnings_text(j: &Journal) -> (r: String)
    ensures
        r@ == crate::fmt::unlines_spec(j@.warnings),
{
    let ws = text::refs(j.warnings.as_slice());
    crate::fmt::unlines(ws.as_slice())
}

// ---- fatal problems ----

/// A fatal parse error. Leniency keeps this list short: only I/O on the main
/// file and include cycles are fatal.
#[derive(Debug)]
pub enum ParseError {
    /// A file could not be read: the file as shown, and why.
    Io(String, String),
    /// A file was included twice (which includes genuine cycles).
    Cycle(String),
}

impl ParseError {
    /// What the user is told.
    pub open spec fn text_spec(self) -> Seq<char> {
        match self {
            ParseError::Io(shown, why) => shown@ + ": "@ + why@,
            ParseError::Cycle(shown) => "include cycle: "@ + shown@ + " is included twice"@,
        }
    }

    /// What the user is told.
    #[must_use]
    pub fn to_text(&self) -> (r: String)
        ensures
            r@ == self.text_spec(),
    {
        match self {
            ParseError::Io(shown, why) => text::cat3(shown.as_str(), ": ", why.as_str()),
            ParseError::Cycle(shown) => text::cat3(
                "include cycle: ",
                shown.as_str(),
                " is included twice",
            ),
        }
    }
}

} // verus!
