//! Format-preserving hledger journal formatter.
//!
//! Line-oriented: each physical line is classified and only posting lines
//! are reflowed; everything else passes through (directives and comments
//! verbatim, transaction headers with trailing white space trimmed). Because
//! directives pass through untouched, price-only and include-only files are
//! safe by construction.
//!
//! Declared commodity display styles are the one piece of journal semantics
//! the formatter *reads* (it still never writes directives): amounts of a
//! commodity with a declared style are re-rendered in that style, the way
//! `hledger print` shows them — symbol side, spacing, digit grouping and
//! decimal mark normalized, entered precision kept. Styles come from the
//! text's own `commodity` / `D` directives via [`scan_ctx`], or from a
//! caller-supplied [`AmountCtx`] covering the whole include tree.
//!
//! Blank lines between top-level blocks are normalized to exactly one where a
//! transaction is involved, and collapsed to at most one everywhere else; see
//! [`blank`].
//!
//! Amounts are aligned to a single file-wide column: the account field is
//! padded past the longest account name in the file, and every first-amount
//! number is right-aligned to one shared column across all transactions.

pub mod balance;
pub mod balanced;
pub mod blank;
pub mod chronology;
pub mod columns;
pub mod explicit;
pub mod filled;
pub mod kept;
pub mod laws;
pub mod layout;
pub mod meaning;
pub mod neat;
pub mod order;
pub mod posting;
pub mod refill;
pub mod reread;
pub mod resort;
pub mod scanned;
pub mod settle;
pub mod shape;
pub mod sort;
pub mod spread;
pub mod sums;
pub mod steady;
pub mod tree;

use vstd::prelude::*;
use vstd::string::*;
use crate::amount::{AmountCtx, Ctx, StyleMap};
use crate::fmt::explicit::{Class, Line};
use crate::fmt::posting::{Post, Posting};
use crate::restyle::Places;
use crate::style::{self, Style};
use crate::text::{self, CharClass};
use crate::lex;

verus! {

/// What a formatting run should do beyond the canonical layout.
#[derive(Debug, Clone, Copy, PartialEq, Eq, Structural)]
pub struct Options {
    /// Stably sort transactions by date, within directive-bounded runs.
    pub sort: bool,
    /// Spell out what the journal leaves implied: fill in each transaction's
    /// one inferred amount, and pad every restyled amount to its commodity's
    /// declared number of decimal places.
    ///
    /// This rewrites amounts rather than only their layout, so it is never a
    /// default and never configurable — it happens because the invocation
    /// asked for it.
    pub explicit: bool,
}

impl Default for Options {
    fn default() -> (r: Self)
        ensures
            r == (Options { sort: false, explicit: false }),
    {
        Options { sort: false, explicit: false }
    }
}

impl Options {
    /// Sorting only: the shape of a plain `fmt --sort`.
    #[must_use]
    pub fn sorted(sort: bool) -> (r: Self)
        ensures
            r == (Options { sort, explicit: false }),
    {
        Options { sort, explicit: false }
    }

    /// The precision policy restyling runs under.
    pub open spec fn places_spec(self) -> Places {
        if self.explicit {
            Places::AtLeastDeclared
        } else {
            Places::AsWritten
        }
    }

    fn places(self) -> (r: Places)
        ensures
            r == self.places_spec(),
    {
        if self.explicit {
            Places::AtLeastDeclared
        } else {
            Places::AsWritten
        }
    }
}

// ---- lines ----

/// The lines of a text: what stands between its newlines. A newline at the end
/// ends the last line, and an empty text has none.
pub open spec fn lines_spec(s: Seq<char>) -> Seq<Seq<char>> {
    let parts = text::split_spec(s, CharClass::Is('\n'));
    if s.len() == 0 {
        Seq::empty()
    } else if s.last() == '\n' {
        parts.drop_last()
    } else {
        parts
    }
}

/// The text of lines: a newline behind every one.
pub open spec fn unlines_spec(ls: Seq<Seq<char>>) -> Seq<char>
    decreases ls.len(),
{
    if ls.len() == 0 {
        Seq::empty()
    } else {
        unlines_spec(ls.drop_last()) + ls.last().push('\n')
    }
}

/// Split into lines.
///
/// `""` yields no lines, a trailing newline does not produce a final empty
/// line, and `\r` is kept (it is content, not a terminator).
#[must_use]
pub fn lines(s: &str) -> (r: Vec<&str>)
    ensures
        text::strs(r@) == lines_spec(s@),
{
    if s.is_empty() {
        let none: Vec<&str> = Vec::new();
        assert(text::strs(none@) =~= Seq::empty());
        return none;
    }
    let mut out = text::split(s, CharClass::Is('\n'));
    let n: usize = text::count(s);
    if s.get_char(n - 1) == '\n' {
        let ghost all = out@;
        assert(text::strs(all).len() == all.len());
        out.pop();
        assert(text::strs(out@) =~= text::strs(all).drop_last());
    }
    out
}

/// Join lines.
///
/// A newline goes after *every* line, so output always ends in one and a file
/// lacking a trailing newline gains one.
#[must_use]
pub fn unlines(ls: &[&str]) -> (r: String)
    ensures
        r@ == unlines_spec(text::strs(ls@)),
{
    let ghost all = text::strs(ls@);
    let mut out = String::new();
    let mut i: usize = 0;
    while i < ls.len()
        invariant
            i <= ls@.len(),
            all == text::strs(ls@),
            out@ == unlines_spec(all.take(i as int)),
        decreases ls@.len() - i,
    {
        assert(all.take(i + 1).drop_last() =~= all.take(i as int));
        assert(all.take(i + 1).last() == ls@[i as int]@);
        let ghost before = out@;
        out.append(ls[i]);
        out.push('\n');
        assert(out@ =~= before + ls@[i as int]@.push('\n'));
        i = i + 1;
    }
    assert(all.take(all.len() as int) =~= all);
    out
}

// ---- the styles a text declares ----

/// What has been read of a text's style declarations.
#[verifier::ext_equal]
pub struct Scan {
    /// Styles of `commodity` directives.
    pub declared: Map<Seq<char>, Style>,
    /// Styles of `D` directives.
    pub defaults: Map<Seq<char>, Style>,
    /// The commodity whose indented subdirective block we are inside, waiting
    /// for a `format` line.
    pub block: Option<Seq<char>>,
    /// Whether we are inside a `comment` block.
    pub opaque: bool,
}

impl Scan {
    pub open spec fn start() -> Scan {
        Scan { declared: Map::empty(), defaults: Map::empty(), block: None, opaque: false }
    }

    /// One line further.
    pub open spec fn step(self, l: Seq<char>) -> Scan {
        if self.opaque {
            Scan { opaque: !lex::closes_block_spec(l), ..self }
        } else if lex::opens_block_spec(l) {
            Scan { opaque: true, block: None, ..self }
        } else if lex::is_indented_spec(l) {
            match self.block {
                None => self,
                Some(name) => match lex::directive_arg_spec(
                    text::trim_start_spec(l, CharClass::White),
                    "format"@,
                ) {
                    None => self,
                    Some(sample) => match style::style_from_sample_spec(sample) {
                        None => self,
                        Some((_, style)) => Scan {
                            declared: self.declared.insert(name, style),
                            ..self
                        },
                    },
                },
            }
        } else {
            match lex::directive_arg_spec(l, "commodity"@) {
                Some(sample) => match style::style_from_sample_spec(sample) {
                    Some((name, style)) => Scan {
                        declared: self.declared.insert(name, style),
                        block: Some(name),
                        ..self
                    },
                    None => Scan { block: Some(sample), ..self },
                },
                None => match lex::directive_arg_spec(l, "D"@) {
                    Some(sample) => match style::style_from_sample_spec(sample) {
                        Some((name, style)) => Scan {
                            defaults: self.defaults.insert(name, style),
                            block: None,
                            ..self
                        },
                        None => Scan { block: None, ..self },
                    },
                    None => Scan { block: None, ..self },
                },
            }
        }
    }

    /// Over a list of lines.
    pub open spec fn over(ls: Seq<Seq<char>>) -> Scan
        decreases ls.len(),
    {
        if ls.len() == 0 {
            Scan::start()
        } else {
            Scan::over(ls.drop_last()).step(ls.last())
        }
    }
}

/// The styles that lines declare, a `commodity` style outranking a `D` style.
pub open spec fn scan_ctx_spec(ls: Seq<Seq<char>>) -> Ctx {
    let scan = Scan::over(ls);
    Ctx {
        decimal_mark: None,
        styles: scan.defaults.union_prefer_right(scan.declared),
        default_style: None,
    }
}

/// Collect declared commodity display styles from the text alone: `commodity`
/// directive samples, their indented `format` subdirectives, and `D`.
///
/// Styles apply journal-wide regardless of position, the last declaration of a
/// commodity wins, and a `commodity` style beats a `D` style even when `D`
/// comes later. A bare `commodity EUR` declares no style.
#[must_use]
pub fn scan_ctx(ls: &[&str]) -> (r: AmountCtx)
    ensures
        r@ == scan_ctx_spec(text::strs(ls@)),
{
    let ghost all = text::strs(ls@);
    let mut declared = StyleMap::new();
    let mut defaults = StyleMap::new();
    let mut block: Option<String> = None;
    let mut opaque = false;
    let mut i: usize = 0;
    assert(Scan { declared: declared@, defaults: defaults@, block: text::opt_text(block), opaque }
        =~= Scan::over(all.take(0)));
    while i < ls.len()
        invariant
            i <= ls@.len(),
            all == text::strs(ls@),
            (Scan { declared: declared@, defaults: defaults@, block: text::opt_text(block), opaque })
                == Scan::over(all.take(i as int)),
        decreases ls@.len() - i,
    {
        let l = ls[i];
        assert(all.take(i + 1).drop_last() =~= all.take(i as int));
        assert(all.take(i + 1).last() == l@);
        i = i + 1;
        if opaque {
            opaque = !lex::closes_comment_block(l);
        } else if lex::opens_comment_block(l) {
            opaque = true;
            block = None;
        } else if lex::is_indented_non_blank(l) {
            if let Some(name) = &block {
                if let Some(sample) = lex::directive_arg(
                    text::trim_start(l, CharClass::White),
                    "format",
                ) {
                    if let Some((_, style)) = style::style_from_sample(sample) {
                        declared.insert(name.clone(), style);
                    }
                }
            }
        } else if let Some(sample) = lex::directive_arg(l, "commodity") {
            if let Some((name, style)) = style::style_from_sample(sample) {
                block = Some(name.clone());
                declared.insert(name, style);
            } else {
                block = Some(sample.to_owned());
            }
        } else {
            block = None;
            if let Some(sample) = lex::directive_arg(l, "D") {
                if let Some((name, style)) = style::style_from_sample(sample) {
                    defaults.insert(name, style);
                }
            }
        }
    }
    assert(all.take(all.len() as int) =~= all);
    // `D` styles rank below `commodity` styles.
    defaults.absorb(&declared);
    AmountCtx { decimal_mark: None, styles: defaults, default_style: None }
}

// ---- classifying lines ----

/// What has been classified of a list of lines.
#[verifier::ext_equal]
pub struct Classify {
    /// The classes of the lines so far.
    pub out: Seq<Line>,
    /// The decimal mark in effect.
    pub mark: Option<char>,
    /// Whether an indented line now is a posting.
    pub in_txn: bool,
    /// Whether we are inside a `comment` block.
    pub opaque: bool,
    /// Where the postings of the open transaction start, and the decimal mark
    /// in effect there.
    pub txn: Option<(int, Option<char>)>,
}

/// A context under another decimal mark.
pub open spec fn marked(ctx: Ctx, mark: Option<char>) -> Ctx {
    Ctx { decimal_mark: mark, ..ctx }
}

/// The mark that a `decimal-mark` argument names, if it is one.
pub open spec fn mark_named(arg: Seq<char>) -> Option<char> {
    if arg.len() > 0 && CharClass::Mark.has(arg[0]) {
        Some(arg[0])
    } else {
        None
    }
}

impl Classify {
    pub open spec fn start(ctx: Ctx) -> Classify {
        Classify {
            out: Seq::empty(),
            mark: ctx.decimal_mark,
            in_txn: false,
            opaque: false,
            txn: None,
        }
    }

    /// With the open transaction ended: its inferred amounts are filled in
    /// where that was asked for.
    pub open spec fn close(self, ctx: Ctx, opts: Options) -> Classify {
        match self.txn {
            Some((start, mark)) if opts.explicit => Classify {
                out: self.out.take(start) + explicit::fill_spec(
                    self.out.skip(start),
                    marked(ctx, mark),
                ),
                txn: None,
                ..self
            },
            _ => Classify { txn: None, ..self },
        }
    }

    /// One line further.
    pub open spec fn step(self, l: Seq<char>, ctx: Ctx, opts: Options) -> Classify {
        if self.opaque {
            Classify {
                opaque: !lex::closes_block_spec(l),
                out: self.out.push(Line::Opaque),
                ..self
            }
        } else if lex::opens_block_spec(l) {
            let c = self.close(ctx, opts);
            Classify { opaque: true, in_txn: false, out: c.out.push(Line::Opaque), ..c }
        } else if self.in_txn && lex::is_indented_spec(l) {
            let post = posting::restyle_post_spec(
                posting::parse_posting_spec(l),
                marked(ctx, self.mark),
                opts.places_spec(),
            );
            Classify { out: self.out.push(Line::Post(seq![post])), ..self }
        } else {
            let mark = match lex::directive_arg_spec(l, "decimal-mark"@) {
                Some(arg) => mark_named(arg),
                None => self.mark,
            };
            let c = self.close(ctx, opts);
            let out = c.out.push(Line::Other);
            let opens = lex::opens_txn_spec(l);
            Classify {
                out,
                mark,
                in_txn: opens,
                opaque: false,
                txn: if opens {
                    Some((out.len() as int, mark))
                } else {
                    None
                },
            }
        }
    }

    /// Over a list of lines.
    pub open spec fn over(ls: Seq<Seq<char>>, ctx: Ctx, opts: Options) -> Classify
        decreases ls.len(),
    {
        if ls.len() == 0 {
            Classify::start(ctx)
        } else {
            Classify::over(ls.drop_last(), ctx, opts).step(ls.last(), ctx, opts)
        }
    }
}

/// The classes of lines.
pub open spec fn styled_spec(ls: Seq<Seq<char>>, ctx: Ctx, opts: Options) -> Seq<Line> {
    Classify::over(ls, ctx, opts).close(ctx, opts).out
}

/// How many `include` lines are behind, and whether a `comment` block is open.
pub open spec fn passed(ls: Seq<Seq<char>>) -> (int, bool)
    decreases ls.len(),
{
    if ls.len() == 0 {
        (0, false)
    } else {
        let (n, opaque) = passed(ls.drop_last());
        let l = ls.last();
        if opaque {
            (n, !lex::closes_block_spec(l))
        } else if lex::opens_block_spec(l) {
            (n, true)
        } else if !lex::is_indented_spec(l) && lex::directive_arg_spec(l, "include"@) is Some {
            (n + 1, false)
        } else {
            (n, false)
        }
    }
}

/// The context in effect behind `n` `include` lines, given one for each that
/// brings something in, and one before the first.
pub open spec fn stage(stages: Seq<Ctx>, n: int) -> Ctx {
    if n < stages.len() {
        stages[n]
    } else {
        stages.last()
    }
}

impl Classify {
    /// Over a list of lines whose `include` lines bring contexts in.
    pub open spec fn over_stages(ls: Seq<Seq<char>>, stages: Seq<Ctx>, opts: Options) -> Classify
        decreases ls.len(),
    {
        if ls.len() == 0 {
            Classify::start(stages[0])
        } else {
            Classify::over_stages(ls.drop_last(), stages, opts).step(
                ls.last(),
                stage(stages, passed(ls.drop_last()).0),
                opts,
            )
        }
    }
}

/// The classes of lines whose `include` lines bring contexts in.
pub open spec fn styled_stages_spec(ls: Seq<Seq<char>>, stages: Seq<Ctx>, opts: Options) -> Seq<
    Line,
> {
    Classify::over_stages(ls, stages, opts).close(stage(stages, passed(ls).0), opts).out
}

/// With one context, it is in effect throughout.
pub proof fn lemma_one_stage(ls: Seq<Seq<char>>, ctx: Ctx, opts: Options)
    ensures
        Classify::over_stages(ls, seq![ctx], opts) == Classify::over(ls, ctx, opts),
        styled_stages_spec(ls, seq![ctx], opts) == styled_spec(ls, ctx, opts),
        passed(ls).0 >= 0,
    decreases ls.len(),
{
    if ls.len() > 0 {
        lemma_one_stage(ls.drop_last(), ctx, opts);
    }
    assert(stage(seq![ctx], passed(ls).0) == ctx);
}

/// What a list of contexts says.
pub open spec fn ctx_views(v: Seq<AmountCtx>) -> Seq<Ctx> {
    v.map_values(|c: AmountCtx| c@)
}

/// The longest of two lengths.
pub open spec fn longer(a: nat, b: nat) -> nat {
    if a < b {
        b
    } else {
        a
    }
}

/// The widest account name of postings.
pub open spec fn account_width(ps: Seq<Post>) -> nat
    decreases ps.len(),
{
    if ps.len() == 0 {
        0
    } else {
        longer(
            account_width(ps.drop_last()),
            match ps.last().account() {
                Some(a) => a.len(),
                None => 0,
            },
        )
    }
}

/// The widest number field of postings.
pub open spec fn number_width(ps: Seq<Post>) -> nat
    decreases ps.len(),
{
    if ps.len() == 0 {
        0
    } else {
        longer(
            number_width(ps.drop_last()),
            match ps.last().number() {
                Some(n) => n.len(),
                None => 0,
            },
        )
    }
}

/// The postings of classified lines.
pub open spec fn all_posts(styled: Seq<Line>) -> Seq<Post>
    decreases styled.len(),
{
    if styled.len() == 0 {
        Seq::empty()
    } else {
        all_posts(styled.drop_last()) + styled.last().postings()
    }
}

/// A non-posting line, formatted: blank lines become empty, transaction
/// headers lose trailing white space, everything else stays.
pub open spec fn format_other_spec(s: Seq<char>) -> Seq<char> {
    if lex::is_blank_spec(s) {
        Seq::empty()
    } else if lex::opens_txn_spec(s) {
        lex::rstrip_spec(s)
    } else {
        s
    }
}

/// Postings rendered.
pub open spec fn render_all_spec(acc_w: nat, num_w: nat, ps: Seq<Post>) -> Seq<Seq<char>> {
    ps.map_values(|p: Post| posting::render_spec(acc_w, num_w, p))
}

/// What a line is written as.
pub open spec fn format_line_spec(acc_w: nat, num_w: nat, l: Seq<char>, c: Line) -> Seq<Seq<char>> {
    match c {
        Line::Post(ps) => render_all_spec(acc_w, num_w, ps),
        Line::Other => seq![format_other_spec(l)],
        Line::Opaque => seq![l],
    }
}

/// What the first `n` lines are written as.
pub open spec fn format_upto_spec(
    acc_w: nat,
    num_w: nat,
    ls: Seq<Seq<char>>,
    styled: Seq<Line>,
    n: int,
) -> Seq<Seq<char>>
    decreases n,
{
    if n <= 0 {
        Seq::empty()
    } else {
        format_upto_spec(acc_w, num_w, ls, styled, n - 1) + format_line_spec(
            acc_w,
            num_w,
            ls[n - 1],
            styled[n - 1],
        )
    }
}

/// Classified lines laid out against their widths.
pub open spec fn reflowed_spec(ls: Seq<Seq<char>>, styled: Seq<Line>) -> Seq<Seq<char>> {
    let ps = all_posts(styled);
    format_upto_spec(account_width(ps), number_width(ps), ls, styled, ls.len() as int)
}

/// Lines reflowed against their widths.
pub open spec fn format_lines_spec(ls: Seq<Seq<char>>, ctx: Ctx, opts: Options) -> Seq<Seq<char>> {
    reflowed_spec(ls, styled_spec(ls, ctx, opts))
}

/// The lines of a text in the order and with the gaps they are written in.
pub open spec fn arranged_spec(s: Seq<char>, opts: Options) -> Seq<Seq<char>> {
    let ls = lines_spec(s);
    blank::normalize_spec(
        if opts.sort {
            sort::sort_entries_spec(ls)
        } else {
            ls
        },
    )
}

/// A text formatted: its lines sorted where asked, its blank lines normalized
/// and its postings reflowed.
pub open spec fn format_spec(s: Seq<char>, ctx: Ctx, opts: Options) -> Seq<char> {
    let ls = lines_spec(s);
    let sorted = if opts.sort {
        sort::sort_entries_spec(ls)
    } else {
        ls
    };
    unlines_spec(format_lines_spec(blank::normalize_spec(sorted), ctx, opts))
}

/// The alignment widths of an already-classified line list.
fn widths_of(styled: &[Class]) -> (r: (usize, usize))
    ensures
        r.0 == account_width(all_posts(explicit::lines_view(styled@))),
        r.1 == number_width(all_posts(explicit::lines_view(styled@))),
{
    let ghost all = explicit::lines_view(styled@);
    let mut acc_w: usize = 0;
    let mut num_w: usize = 0;
    let mut i: usize = 0;
    while i < styled.len()
        invariant
            i <= styled@.len(),
            all == explicit::lines_view(styled@),
            acc_w == account_width(all_posts(all.take(i as int))),
            num_w == number_width(all_posts(all.take(i as int))),
        decreases styled@.len() - i,
    {
        assert(all.take(i + 1).drop_last() =~= all.take(i as int));
        assert(all.take(i + 1).last() == styled@[i as int]@);
        let ghost before = all_posts(all.take(i as int));
        let ghost here = styled@[i as int]@.postings();
        if let Class::Post(ps) = &styled[i] {
            let mut j: usize = 0;
            assert(before + here.take(0) =~= before);
            while j < ps.len()
                invariant
                    j <= ps@.len(),
                    here == posting::posts(ps@),
                    acc_w == account_width(before + here.take(j as int)),
                    num_w == number_width(before + here.take(j as int)),
                decreases ps@.len() - j,
            {
                assert(here[j as int] == ps@[j as int]@);
                assert((before + here.take(j + 1)).drop_last() =~= before + here.take(j as int));
                assert((before + here.take(j + 1)).last() == ps@[j as int]@);
                if let Some(a) = posting::account_of(&ps[j]) {
                    let n: usize = text::count(a);
                    if acc_w < n {
                        acc_w = n;
                    }
                }
                if let Posting::Amount { num, .. } = &ps[j] {
                    let n: usize = text::count(num.as_str());
                    if num_w < n {
                        num_w = n;
                    }
                }
                j = j + 1;
            }
            assert(here.take(here.len() as int) =~= here);
        } else {
            assert(before + here =~= before);
        }
        i = i + 1;
    }
    assert(all.take(all.len() as int) =~= all);
    (acc_w, num_w)
}

/// End the transaction whose postings start at the recorded index, filling in
/// its inferred amounts when `--explicit` asked for them.
fn close_txn(
    out: Vec<Class>,
    txn: Option<(usize, Option<char>)>,
    ctx: &AmountCtx,
    opts: Options,
) -> (r: Vec<Class>)
    requires
        match txn {
            Some((start, _)) => start <= out@.len(),
            None => true,
        },
    ensures
        explicit::lines_view(r@) == (match txn {
            Some((start, mark)) if opts.explicit => explicit::lines_view(out@).take(start as int)
                + explicit::fill_spec(
                explicit::lines_view(out@).skip(start as int),
                marked(ctx@, mark),
            ),
            _ => explicit::lines_view(out@),
        }),
        r@.len() == out@.len(),
{
    match txn {
        Some((start, mark)) => {
            if !opts.explicit {
                return out;
            }
            let ghost all = explicit::lines_view(out@);
            let mut head = out;
            let run = head.split_off(start);
            assert(explicit::lines_view(run@) =~= all.skip(start as int));
            let mut here = ctx.duplicate();
            here.decimal_mark = mark;
            assert(here@ =~= marked(ctx@, mark));
            let mut filled = explicit::fill(run, &here);
            let ghost fv = explicit::lines_view(filled@);
            let ghost hv = head@;
            head.append(&mut filled);
            assert(explicit::lines_view(head@) =~= explicit::lines_view(hv) + fv);
            assert(explicit::lines_view(hv) =~= all.take(start as int));
            head
        },
        None => out,
    }
}

/// Classify each physical line: a parsed-and-restyled posting, or a
/// pass-through line.
///
/// A posting line is an indented, non-blank line that follows a transaction
/// header. An indented run that follows anything else — an `account` or
/// `commodity` directive, say — is not postings. A `decimal-mark` directive
/// changes how amounts *parse* from that point on (the declared style still
/// governs display). A `comment` block is opaque throughout: a posting-looking
/// line inside it is prose.
///
/// Each `include` line that is passed brings the next of the contexts into
/// effect.
fn styled_stages(ls: &[&str], stages: &[AmountCtx], opts: Options) -> (r: Vec<Class>)
    requires
        stages@.len() > 0,
    ensures
        explicit::lines_view(r@) == styled_stages_spec(
            text::strs(ls@),
            ctx_views(stages@),
            opts,
        ),
        r@.len() == ls@.len(),
{
    let ghost all = text::strs(ls@);
    let ghost cs = ctx_views(stages@);
    let mut at: usize = 0;
    let mut cur = stages[0].duplicate();
    let mut in_txn = false;
    let mut opaque = false;
    let mut out: Vec<Class> = Vec::new();
    let mut txn: Option<(usize, Option<char>)> = None;
    let mut i: usize = 0;
    let ghost mut here = cs[0];
    let ghost mut state = Classify::start(cs[0]);
    assert(explicit::lines_view(out@) =~= state.out);
    assert(marked(here, state.mark) =~= cur@);
    assert(all.take(0) =~= Seq::empty());
    while i < ls.len()
        invariant
            i <= ls@.len(),
            stages@.len() > 0,
            all == text::strs(ls@),
            cs == ctx_views(stages@),
            state == Classify::over_stages(all.take(i as int), cs, opts),
            at <= i,
            passed(all.take(i as int)) == (at as int, opaque),
            here == stage(cs, at as int),
            explicit::lines_view(out@) == state.out,
            out@.len() == i,
            cur@ == marked(here, state.mark),
            cur.decimal_mark == state.mark,
            in_txn == state.in_txn,
            opaque == state.opaque,
            match txn {
                Some((start, mark)) => state.txn == Some((start as int, mark)) && start <= i,
                None => state.txn is None,
            },
        decreases ls@.len() - i,
    {
        let l = ls[i];
        let ghost before = state;
        proof {
            assert(all.take(i + 1).drop_last() =~= all.take(i as int));
            assert(all.take(i + 1).last() == l@);
            state = state.step(l@, here, opts);
            lemma_remark(here, before.mark);
        }
        i = i + 1;
        if opaque {
            opaque = !lex::closes_comment_block(l);
            let ghost o = out@;
            out.push(Class::Opaque);
            assert(explicit::lines_view(out@) =~= explicit::lines_view(o).push(Line::Opaque));
        } else if lex::opens_comment_block(l) {
            opaque = true;
            in_txn = false;
            out = close_txn(out, txn, &cur, opts);
            txn = None;
            let ghost o = out@;
            assert(explicit::lines_view(o) == before.close(here, opts).out);
            out.push(Class::Opaque);
            assert(explicit::lines_view(out@) =~= explicit::lines_view(o).push(Line::Opaque));
        } else if in_txn && lex::is_indented_non_blank(l) {
            let p = posting::restyle_with(posting::parse_posting(l), &cur, opts.places());
            let ghost pv = p@;
            let mut one: Vec<Posting> = Vec::new();
            one.push(p);
            assert(posting::posts(one@) =~= seq![pv]);
            let class = Class::Post(one);
            let ghost cv = class@;
            let ghost o = out@;
            out.push(class);
            assert(explicit::lines_view(out@) =~= explicit::lines_view(o).push(cv));
        } else {
            out = close_txn(out, txn, &cur, opts);
            if let Some(arg) = lex::directive_arg(l, "decimal-mark") {
                cur.decimal_mark = match text::first(arg) {
                    Some(c) => if CharClass::Mark.holds(c) {
                        Some(c)
                    } else {
                        None
                    },
                    None => None,
                };
            }
            assert(cur@ =~= marked(here, state.mark));
            if !lex::is_indented_non_blank(l) && lex::directive_arg(l, "include").is_some() {
                at = at + 1;
                let mark = cur.decimal_mark;
                let next: usize = if at < stages.len() {
                    at
                } else {
                    stages.len() - 1
                };
                cur = stages[next].duplicate();
                cur.decimal_mark = mark;
                proof {
                    here = stage(cs, at as int);
                }
                assert(cur@ =~= marked(here, state.mark));
            }
            let ghost o = out@;
            out.push(Class::Other);
            assert(explicit::lines_view(out@) =~= explicit::lines_view(o).push(Line::Other));
            in_txn = lex::opens_txn(l);
            txn = if in_txn {
                Some((out.len(), cur.decimal_mark))
            } else {
                None
            };
        }
    }
    assert(all.take(all.len() as int) =~= all);
    proof {
        lemma_remark(here, state.mark);
    }
    close_txn(out, txn, &cur, opts)
}

/// The classes of lines under one context.
fn styled_lines(ls: &[&str], ctx: &AmountCtx, opts: Options) -> (r: Vec<Class>)
    ensures
        explicit::lines_view(r@) == styled_spec(text::strs(ls@), ctx@, opts),
        r@.len() == ls@.len(),
{
    let mut one: Vec<AmountCtx> = Vec::new();
    one.push(ctx.duplicate());
    assert(ctx_views(one@) =~= seq![ctx@]);
    proof {
        lemma_one_stage(text::strs(ls@), ctx@, opts);
    }
    styled_stages(ls, one.as_slice(), opts)
}

/// Marking a context again replaces the mark.
proof fn lemma_remark(ctx: Ctx, mark: Option<char>)
    ensures
        forall|m: Option<char>| #[trigger] marked(marked(ctx, mark), m) == marked(ctx, m),
{
}

/// Format a non-posting line.
///
/// Blank lines collapse to empty — how *many* there are is [`blank`]'s
/// business, decided before this point; transaction headers get trailing
/// white space trimmed; everything else — directives, top-level comments,
/// `include`, `P` price lines — passes through verbatim.
fn format_other(s: &str) -> (r: String)
    ensures
        r@ == format_other_spec(s@),
{
    if lex::is_blank(s) {
        String::new()
    } else if lex::opens_txn(s) {
        lex::rstrip(s).to_owned()
    } else {
        s.to_owned()
    }
}

/// Render postings.
fn render_all(acc_w: usize, num_w: usize, ps: &[Posting]) -> (r: Vec<String>)
    ensures
        text::texts(r@) == render_all_spec(acc_w as nat, num_w as nat, posting::posts(ps@)),
{
    let ghost all = posting::posts(ps@);
    let ghost want = render_all_spec(acc_w as nat, num_w as nat, all);
    let mut out: Vec<String> = Vec::new();
    let mut i: usize = 0;
    assert(text::texts(out@) =~= want.take(0));
    while i < ps.len()
        invariant
            i <= ps@.len(),
            all == posting::posts(ps@),
            want == render_all_spec(acc_w as nat, num_w as nat, all),
            text::texts(out@) == want.take(i as int),
        decreases ps@.len() - i,
    {
        assert(all[i as int] == ps@[i as int]@);
        let s = posting::render(acc_w, num_w, &ps[i]);
        let ghost sv = s@;
        let ghost before = text::texts(out@);
        out.push(s);
        i = i + 1;
        assert(text::texts(out@) =~= before.push(sv));
        assert(want.take(i as int) =~= want.take(i - 1).push(want[i - 1]));
    }
    assert(want.take(want.len() as int) =~= want);
    out
}

/// Reflow a list of physical lines against the file-wide widths.
fn reflow(ls: &[&str], styled: &[Class]) -> (r: Vec<String>)
    requires
        styled@.len() == ls@.len(),
    ensures
        text::texts(r@) == reflowed_spec(text::strs(ls@), explicit::lines_view(styled@)),
{
    let (acc_w, num_w) = widths_of(styled);
    let ghost all = text::strs(ls@);
    let ghost classes = explicit::lines_view(styled@);
    let mut out: Vec<String> = Vec::new();
    let mut i: usize = 0;
    assert(text::texts(out@) =~= Seq::empty());
    while i < ls.len()
        invariant
            i <= ls@.len(),
            styled@.len() == ls@.len(),
            all == text::strs(ls@),
            classes == explicit::lines_view(styled@),
            text::texts(out@) == format_upto_spec(
                acc_w as nat,
                num_w as nat,
                all,
                classes,
                i as int,
            ),
        decreases ls@.len() - i,
    {
        assert(all[i as int] == ls@[i as int]@);
        assert(classes[i as int] == styled@[i as int]@);
        let ghost before = out@;
        let mut written: Vec<String> = Vec::new();
        match &styled[i] {
            Class::Post(ps) => {
                written = render_all(acc_w, num_w, ps.as_slice());
            },
            Class::Other => {
                let s = format_other(ls[i]);
                let ghost sv = s@;
                written.push(s);
                assert(text::texts(written@) =~= seq![sv]);
            },
            Class::Opaque => {
                written.push(ls[i].to_owned());
                assert(text::texts(written@) =~= seq![ls@[i as int]@]);
            },
        }
        let ghost w = written@;
        out.append(&mut written);
        assert(text::texts(out@) =~= text::texts(before) + text::texts(w));
        i = i + 1;
    }
    out
}

/// The one formatting entry point every other one funnels into: caller-supplied
/// styles, and everything optional named in [`Options`].
#[must_use]
pub fn format_opts(s: &str, ctx: &AmountCtx, opts: Options) -> (r: String)
    ensures
        r@ == format_spec(s@, ctx@, opts),
{
    let ls = arranged(s, opts);
    let styled = styled_lines(ls.as_slice(), ctx, opts);
    let out = reflow(ls.as_slice(), styled.as_slice());
    unlines(text::refs(out.as_slice()).as_slice())
}

/// The lines of a text in the order and with the gaps they are written in.
fn arranged<'a>(s: &'a str, opts: Options) -> (r: Vec<&'a str>)
    ensures
        text::strs(r@) == arranged_spec(s@, opts),
{
    let ls = lines(s);
    let ls = if opts.sort {
        sort::sort_entries(ls.as_slice())
    } else {
        ls
    };
    blank::normalize(ls.as_slice())
}

/// A text formatted whose `include` lines bring contexts in.
pub open spec fn format_stages_spec(s: Seq<char>, stages: Seq<Ctx>, opts: Options) -> Seq<char> {
    let ls = arranged_spec(s, opts);
    unlines_spec(reflowed_spec(ls, styled_stages_spec(ls, stages, opts)))
}

/// [`format_opts`] of a text whose `include` lines bring contexts in: the first
/// is in effect where the text begins, each other one from its `include` line
/// on.
pub(crate) fn format_stages(s: &str, stages: &[AmountCtx], opts: Options) -> (r: String)
    requires
        stages@.len() > 0,
    ensures
        r@ == format_stages_spec(s@, ctx_views(stages@), opts),
{
    let ls = arranged(s, opts);
    let styled = styled_stages(ls.as_slice(), stages, opts);
    let out = reflow(ls.as_slice(), styled.as_slice());
    unlines(text::refs(out.as_slice()).as_slice())
}

/// Format a whole file's contents, restyling amounts to the styles declared
/// in the text itself.
///
/// Output always ends in a newline (empty input yields empty output).
#[must_use]
pub fn format(s: &str) -> (r: String)
    ensures
        r@ == format_spec(
            s@,
            scan_ctx_spec(lines_spec(s@)),
            Options { sort: false, explicit: false },
        ),
{
    format_with(s, &scan_ctx(lines(s).as_slice()))
}

/// Like [`format()`], with styles supplied by the caller — the whole include
/// tree's, typically. The text's own directives are *not* rescanned: the
/// caller's context is authoritative.
#[must_use]
pub fn format_with(s: &str, ctx: &AmountCtx) -> (r: String)
    ensures
        r@ == format_spec(s@, ctx@, Options { sort: false, explicit: false }),
{
    format_opts(s, ctx, Options { sort: false, explicit: false })
}

/// Like [`format()`], but also stably sorts transactions by date.
///
/// Sorting is directive-bounded: transactions reorder only within runs between
/// directives and standalone comment blocks, which act as barriers, so
/// positional directives keep their scope. Equal dates keep their source order.
#[must_use]
pub fn format_sorted(s: &str) -> (r: String)
    ensures
        r@ == format_spec(
            s@,
            scan_ctx_spec(lines_spec(s@)),
            Options { sort: true, explicit: false },
        ),
{
    format_sorted_with(s, &scan_ctx(lines(s).as_slice()))
}

/// [`format_sorted`] with caller-supplied styles.
#[must_use]
pub fn format_sorted_with(s: &str, ctx: &AmountCtx) -> (r: String)
    ensures
        r@ == format_spec(s@, ctx@, Options { sort: true, explicit: false }),
{
    format_opts(s, ctx, Options::sorted(true))
}

/// [`format_opts`] against the styles declared in the text itself.
#[must_use]
pub fn format_opts_scanned(s: &str, opts: Options) -> (r: String)
    ensures
        r@ == format_spec(s@, scan_ctx_spec(lines_spec(s@)), opts),
{
    format_opts(s, &scan_ctx(lines(s).as_slice()), opts)
}

/// Whether the input is already a fixed point of [`format()`]. Drives
/// `--check`.
#[must_use]
pub fn is_formatted(s: &str) -> (r: bool)
    ensures
        r == (format_spec(
            s@,
            scan_ctx_spec(lines_spec(s@)),
            Options { sort: false, explicit: false },
        ) == s@),
{
    text::same(format(s).as_str(), s)
}

/// [`is_formatted`] with caller-supplied styles.
#[must_use]
pub fn is_formatted_with(s: &str, ctx: &AmountCtx) -> (r: bool)
    ensures
        r == (format_spec(s@, ctx@, Options { sort: false, explicit: false }) == s@),
{
    text::same(format_with(s, ctx).as_str(), s)
}

/// Whether the input is already a fixed point of [`format_sorted`]. Drives
/// `--check --sort`.
#[must_use]
pub fn is_formatted_sorted(s: &str) -> (r: bool)
    ensures
        r == (format_spec(
            s@,
            scan_ctx_spec(lines_spec(s@)),
            Options { sort: true, explicit: false },
        ) == s@),
{
    text::same(format_sorted(s).as_str(), s)
}

/// [`is_formatted_sorted`] with caller-supplied styles.
#[must_use]
pub fn is_formatted_sorted_with(s: &str, ctx: &AmountCtx) -> (r: bool)
    ensures
        r == (format_spec(s@, ctx@, Options { sort: true, explicit: false }) == s@),
{
    text::same(format_sorted_with(s, ctx).as_str(), s)
}

/// Whether the input is already a fixed point of [`format_opts`]. Drives
/// `--check` under any combination of flags.
#[must_use]
pub fn is_formatted_opts(s: &str, ctx: &AmountCtx, opts: Options) -> (r: bool)
    ensures
        r == (format_spec(s@, ctx@, opts) == s@),
{
    text::same(format_opts(s, ctx, opts).as_str(), s)
}

/// The file-wide alignment widths of lines.
pub open spec fn widths_spec(ls: Seq<Seq<char>>, ctx: Ctx) -> (nat, nat) {
    let ps = all_posts(styled_spec(ls, ctx, Options { sort: false, explicit: false }));
    (account_width(ps), number_width(ps))
}

/// The file-wide alignment widths.
///
/// The longest account name over every posting in the file, and the longest
/// number field over every amount posting.
///
/// These are deliberately **not** per-transaction. The entry session calls
/// this directly so its preview and its writes align exactly as the formatter
/// would.
#[must_use]
pub fn widths(ls: &[&str]) -> (r: (usize, usize))
    ensures
        (r.0 as nat, r.1 as nat) == widths_spec(
            text::strs(ls@),
            scan_ctx_spec(text::strs(ls@)),
        ),
{
    widths_with(ls, &scan_ctx(ls))
}

/// [`widths`] with caller-supplied styles: the widths of the *restyled*
/// postings, which is what [`format_with`] aligns to.
#[must_use]
pub fn widths_with(ls: &[&str], ctx: &AmountCtx) -> (r: (usize, usize))
    ensures
        (r.0 as nat, r.1 as nat) == widths_spec(text::strs(ls@), ctx@),
{
    widths_of(styled_lines(ls, ctx, Options { sort: false, explicit: false }).as_slice())
}

/// The file-wide alignment widths of lines whose `include` lines bring contexts
/// in.
pub open spec fn widths_stages_spec(ls: Seq<Seq<char>>, stages: Seq<Ctx>) -> (nat, nat) {
    let ps = all_posts(styled_stages_spec(ls, stages, Options { sort: false, explicit: false }));
    (account_width(ps), number_width(ps))
}

/// [`widths`] of lines whose `include` lines bring contexts in.
pub(crate) fn widths_stages(ls: &[&str], stages: &[AmountCtx]) -> (r: (usize, usize))
    requires
        stages@.len() > 0,
    ensures
        (r.0 as nat, r.1 as nat) == widths_stages_spec(text::strs(ls@), ctx_views(stages@)),
{
    widths_of(styled_stages(ls, stages, Options { sort: false, explicit: false }).as_slice())
}

} // verus!
