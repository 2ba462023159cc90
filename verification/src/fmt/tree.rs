//! Formatting a file with the styles it inherits from its include tree.
//!
//! What a file inherits is a list of contexts with the lines they arrive on:
//! what is in effect where the file begins, then what each of its `include`
//! lines brings in. The file's own directives are read from its text and win
//! over what it inherits.

use vstd::prelude::*;
use vstd::string::*;
use crate::amount::{AmountCtx, Ctx};
use crate::fmt::{self, Options};
use crate::text;

verus! {

/// What a list of inherited contexts says.
pub open spec fn ctxs(v: Seq<(usize, AmountCtx)>) -> Seq<(usize, Ctx)> {
    v.map_values(|e: (usize, AmountCtx)| (e.0, e.1@))
}

/// A context with another laid over it.
pub open spec fn overlaid(under: Ctx, over: Ctx) -> Ctx {
    Ctx {
        decimal_mark: if over.decimal_mark is Some {
            over.decimal_mark
        } else {
            under.decimal_mark
        },
        styles: under.styles.union_prefer_right(over.styles),
        default_style: if over.default_style is Some {
            over.default_style
        } else {
            under.default_style
        },
    }
}

/// The contexts laid over one another, in order.
pub open spec fn merged_spec(inherited: Seq<(usize, Ctx)>) -> Ctx
    decreases inherited.len(),
{
    if inherited.len() == 0 {
        Ctx::bare()
    } else {
        overlaid(merged_spec(inherited.drop_last()), inherited.last().1)
    }
}

/// What a file's amounts are read with, from one `include` line to the next:
/// what has been inherited so far, under the file's own directives.
pub open spec fn stages_spec(own: Ctx, inherited: Seq<(usize, Ctx)>) -> Seq<Ctx> {
    if inherited.len() == 0 {
        seq![overlaid(Ctx::bare(), own)]
    } else {
        Seq::new(
            inherited.len(),
            |k: int| overlaid(merged_spec(inherited.take(k + 1)), own),
        )
    }
}

/// A file formatted that stands in an include tree.
pub open spec fn format_at_spec(
    s: Seq<char>,
    inherited: Seq<(usize, Ctx)>,
    opts: Options,
) -> Seq<char> {
    fmt::format_stages_spec(s, stages_spec(fmt::scan_ctx_spec(fmt::lines_spec(s)), inherited), opts)
}

/// The column widths of a file that stands in an include tree.
pub open spec fn widths_at_spec(ls: Seq<Seq<char>>, inherited: Seq<(usize, Ctx)>) -> (nat, nat) {
    fmt::widths_stages_spec(ls, stages_spec(fmt::scan_ctx_spec(ls), inherited))
}

/// Lay a context over another.
fn overlay(under: &mut AmountCtx, over: &AmountCtx)
    ensures
        final(under)@ == overlaid(old(under)@, over@),
{
    if over.decimal_mark.is_some() {
        under.decimal_mark = over.decimal_mark;
    }
    under.styles.absorb(&over.styles);
    if let Some(s) = &over.default_style {
        under.default_style = Some(s.duplicate());
    }
}

/// Every inherited style, in effect at the end of the file.
#[must_use]
pub fn merged_styles(inherited: &[(usize, AmountCtx)]) -> (r: AmountCtx)
    ensures
        r@ == merged_spec(ctxs(inherited@)),
{
    let ghost all = ctxs(inherited@);
    let mut out = AmountCtx::default();
    let mut i: usize = 0;
    assert(all.take(0) =~= Seq::empty());
    while i < inherited.len()
        invariant
            i <= inherited@.len(),
            all == ctxs(inherited@),
            out@ == merged_spec(all.take(i as int)),
        decreases inherited@.len() - i,
    {
        assert(all.take(i + 1).drop_last() =~= all.take(i as int));
        assert(all.take(i + 1).last() == (inherited@[i as int].0, inherited@[i as int].1@));
        overlay(&mut out, &inherited[i].1);
        i = i + 1;
    }
    assert(all.take(all.len() as int) =~= all);
    out
}

/// What a file's amounts are read with, from one `include` line to the next.
fn stages(ls: &[&str], inherited: &[(usize, AmountCtx)]) -> (r: Vec<AmountCtx>)
    ensures
        fmt::ctx_views(r@) == stages_spec(fmt::scan_ctx_spec(text::strs(ls@)), ctxs(inherited@)),
        r@.len() > 0,
{
    let own = fmt::scan_ctx(ls);
    let ghost all = ctxs(inherited@);
    let ghost want = stages_spec(own@, all);
    let mut out: Vec<AmountCtx> = Vec::new();
    let mut so_far = AmountCtx::default();
    if inherited.len() == 0 {
        overlay(&mut so_far, &own);
        out.push(so_far);
        assert(fmt::ctx_views(out@) =~= want);
        return out;
    }
    let mut i: usize = 0;
    assert(all.take(0) =~= Seq::empty());
    while i < inherited.len()
        invariant
            i <= inherited@.len(),
            inherited@.len() > 0,
            all == ctxs(inherited@),
            want == stages_spec(own@, all),
            so_far@ == merged_spec(all.take(i as int)),
            fmt::ctx_views(out@) =~= want.take(i as int),
        decreases inherited@.len() - i,
    {
        assert(all.take(i + 1).drop_last() =~= all.take(i as int));
        assert(all.take(i + 1).last() == (inherited@[i as int].0, inherited@[i as int].1@));
        overlay(&mut so_far, &inherited[i].1);
        let mut here = so_far.duplicate();
        overlay(&mut here, &own);
        let ghost before = fmt::ctx_views(out@);
        let ghost hv = here@;
        out.push(here);
        assert(fmt::ctx_views(out@) =~= before.push(hv));
        assert(want[i as int] == hv);
        i = i + 1;
    }
    assert(want.take(want.len() as int) =~= want);
    out
}

/// Format a file that stands in an include tree.
///
/// A style is in effect from its own declaration onward and no earlier, as
/// hledger reads a journal: what the tree declares ahead of the file from its
/// first line, and what an `include` line brings in from that line. The file's
/// own directives hold throughout it. `include` lines are never moved, so the
/// contexts behind the first belong to them in order.
#[must_use]
pub fn format_opts_at(s: &str, inherited: &[(usize, AmountCtx)], opts: Options) -> (r: String)
    ensures
        r@ == format_at_spec(s@, ctxs(inherited@), opts),
{
    let cs = stages(fmt::lines(s).as_slice(), inherited);
    fmt::format_stages(s, cs.as_slice(), opts)
}

/// Whether a file that stands in an include tree is formatted.
#[must_use]
pub fn is_formatted_at(s: &str, inherited: &[(usize, AmountCtx)]) -> (r: bool)
    ensures
        r == (format_at_spec(
            s@,
            ctxs(inherited@),
            Options { sort: false, explicit: false },
        ) == s@),
{
    let out = format_opts_at(s, inherited, Options { sort: false, explicit: false });
    text::same(out.as_str(), s)
}

/// The column widths of a file that stands in an include tree.
#[must_use]
pub fn widths_with_at(ls: &[&str], inherited: &[(usize, AmountCtx)]) -> (r: (usize, usize))
    ensures
        (r.0 as nat, r.1 as nat) == widths_at_spec(text::strs(ls@), ctxs(inherited@)),
{
    let cs = stages(ls, inherited);
    fmt::widths_stages(ls, cs.as_slice())
}

/// A file that inherits nothing behind its first line is formatted under one
/// context.
pub proof fn a_file_without_includes_has_one_context(
    s: Seq<char>,
    inherited: Seq<(usize, Ctx)>,
    opts: Options,
)
    requires
        inherited.len() <= 1,
    ensures
        format_at_spec(s, inherited, opts) == fmt::format_spec(
            s,
            overlaid(merged_spec(inherited), fmt::scan_ctx_spec(fmt::lines_spec(s))),
            opts,
        ),
{
    let own = fmt::scan_ctx_spec(fmt::lines_spec(s));
    let ctx = overlaid(merged_spec(inherited), own);
    assert(inherited.take(inherited.len() as int) =~= inherited);
    assert(stages_spec(own, inherited) =~= seq![ctx]);
    fmt::lemma_one_stage(fmt::arranged_spec(s, opts), ctx, opts);
}

} // verus!
