//! Equity conversion postings: what a transaction needs so that it balances
//! without interpreting its `@`/`@@` costs.

use vstd::prelude::*;
use vstd::string::*;
use crate::amount::{self, AmountCtx, Ctx, Parsed, ParsedAmount};
use crate::decimal::{self, Num, Quantity};
use crate::lex;
use crate::restyle;
use crate::text;

verus! {

/// The sums negated and rendered, those left out that cannot be negated.
pub open spec fn cancelling_spec(
    sums: Seq<(Seq<char>, Num)>,
    ctx: Ctx,
    siblings: Seq<Seq<char>>,
) -> Seq<Seq<char>>
    decreases sums.len(),
{
    if sums.len() == 0 {
        Seq::empty()
    } else {
        let before = cancelling_spec(sums.drop_last(), ctx, siblings);
        match decimal::difference_of(Num::zero(), sums.last().1) {
            None => before,
            Some(n) => before.push(restyle::render_like_spec(n, sums.last().0, ctx, siblings)),
        }
    }
}

/// Whether some amount of a list is blank.
pub open spec fn any_blank_spec(amounts: Seq<Seq<char>>) -> bool {
    exists|i: int| 0 <= i < amounts.len() && lex::is_blank_spec(#[trigger] amounts[i])
}

/// The amounts of the equity conversion postings a transaction needs.
pub open spec fn equity_conversions_spec(amounts: Seq<Seq<char>>, ctx: Ctx) -> Seq<Seq<char>> {
    if any_blank_spec(amounts) {
        Seq::empty()
    } else {
        match amount::imbalance_spec(amounts, ctx, true) {
            None => Seq::empty(),
            Some(sums) => cancelling_spec(sums, ctx, amounts),
        }
    }
}

/// Whether some amount of a list is blank.
fn any_blank(amounts: &[&str]) -> (r: bool)
    ensures
        r == any_blank_spec(text::strs(amounts@)),
{
    let ghost all = text::strs(amounts@);
    let mut i: usize = 0;
    while i < amounts.len()
        invariant
            i <= amounts.len(),
            all == text::strs(amounts@),
            forall|j: int| 0 <= j < i ==> !lex::is_blank_spec(#[trigger] all[j]),
        decreases amounts.len() - i,
    {
        assert(all[i as int] == amounts@[i as int]@);
        if lex::is_blank(amounts[i]) {
            return true;
        }
        i = i + 1;
    }
    false
}

/// The amounts of the equity conversion postings a transaction needs.
///
/// The negated face imbalance, one per commodity, in the order the
/// commodities first appear. Posting these makes the transaction sum to zero
/// without interpreting the cost — what `hledger print --infer-equity`
/// generates, in a flat account rather than per-commodity subaccounts.
///
/// Empty when nothing is converted, and equally when the face imbalance is
/// unknown (an unparseable or elided amount) — never guess.
#[must_use]
pub fn equity_conversions(amounts: &[&str], ctx: &AmountCtx) -> (r: Vec<String>)
    ensures
        text::texts(r@) == equity_conversions_spec(text::strs(amounts@), ctx@),
{
    let mut out: Vec<String> = Vec::new();
    assert(text::texts(out@) =~= Seq::empty());
    if any_blank(amounts) {
        return out;
    }
    match amount::face_imbalance(amounts, ctx) {
        None => out,
        Some(sums) => {
            let ghost all = amount::sums_view(sums@);
            let mut i: usize = 0;
            while i < sums.len()
                invariant
                    i <= sums.len(),
                    all == amount::sums_view(sums@),
                    text::texts(out@) == cancelling_spec(
                        all.take(i as int),
                        ctx@,
                        text::strs(amounts@),
                    ),
                decreases sums.len() - i,
            {
                assert(all.take(i + 1).drop_last() =~= all.take(i as int));
                assert(all.take(i + 1).last() == (sums@[i as int].0@, sums@[i as int].1@));
                if let Some(n) = Quantity::zero().checked_difference(sums[i].1) {
                    let ghost before = out@;
                    let s = restyle::render_amount_like(n, sums[i].0.as_str(), ctx, amounts);
                    let ghost sv = s@;
                    out.push(s);
                    assert(text::texts(out@) =~= text::texts(before).push(sv));
                }
                i = i + 1;
            }
            assert(all.take(all.len() as int) =~= all);
            out
        },
    }
}

// ---- the layout of conversions ----

/// One conversion of a transaction: its postings, and the amounts of the pair
/// of equity postings that cancels its cost.
pub struct ConversionGroup {
    /// Indices of the postings that belong to it, ascending.
    pub postings: Vec<usize>,
    /// The face negated, and the cost.
    pub equity: Vec<String>,
}

/// How the postings of a transaction with conversions are arranged.
pub struct ConversionLayout {
    /// One group per conversion, in the order of the converting postings.
    pub groups: Vec<ConversionGroup>,
    /// Indices of the postings that belong to no single conversion.
    pub unassigned: Vec<usize>,
}

#[verifier::ext_equal]
pub struct Group {
    pub postings: Seq<usize>,
    pub equity: Seq<Seq<char>>,
}

#[verifier::ext_equal]
pub struct Layout {
    pub groups: Seq<Group>,
    pub unassigned: Seq<usize>,
}

impl View for ConversionGroup {
    type V = Group;

    open spec fn view(&self) -> Group {
        Group { postings: self.postings@, equity: text::texts(self.equity@) }
    }
}

pub open spec fn groups_view(v: Seq<ConversionGroup>) -> Seq<Group> {
    v.map_values(|g: ConversionGroup| g@)
}

impl View for ConversionLayout {
    type V = Layout;

    open spec fn view(&self) -> Layout {
        Layout { groups: groups_view(self.groups@), unassigned: self.unassigned@ }
    }
}

/// Whether an amount field converts: its tail begins with a cost.
pub open spec fn converts_spec(field: Seq<char>) -> bool {
    let rest = lex::split_amount_spec(text::words_spec(field)).2;
    rest.len() > 0 && rest[0].len() > 0 && rest[0][0] == '@'
}

/// The parsed amounts, if all of them parse.
pub open spec fn parsed_all_spec(amounts: Seq<Seq<char>>, ctx: Ctx) -> Option<Seq<Parsed>>
    decreases amounts.len(),
{
    if amounts.len() == 0 {
        Some(Seq::empty())
    } else {
        match (
            parsed_all_spec(amounts.drop_last(), ctx),
            amount::parse_amount_spec(amounts.last(), ctx),
        ) {
            (Some(before), Some(p)) => Some(before.push(p)),
            _ => None,
        }
    }
}

/// Whether posting `i` converts into a commodity.
pub open spec fn pays_in(ps: Seq<Parsed>, conv: Seq<bool>, i: int, name: Seq<char>) -> bool {
    conv[i] && ps[i].contributes.1 == name
}

/// Which conversion a posting belongs to: its own, or the only one whose cost
/// is in its commodity.
pub open spec fn belongs(ps: Seq<Parsed>, conv: Seq<bool>, j: int, c: int) -> bool {
    if conv[j] {
        j == c
    } else {
        pays_in(ps, conv, c, ps[j].commodity) && forall|i: int|
            0 <= i < ps.len() && i != c ==> !#[trigger] pays_in(ps, conv, i, ps[j].commodity)
    }
}

/// Whether a posting belongs to some conversion.
pub open spec fn assigned(ps: Seq<Parsed>, conv: Seq<bool>, j: int) -> bool {
    exists|c: int| 0 <= c < ps.len() && #[trigger] belongs(ps, conv, j, c)
}

/// The postings before `n` that belong to conversion `c`.
pub open spec fn members_spec(ps: Seq<Parsed>, conv: Seq<bool>, c: int, n: int) -> Seq<usize>
    decreases n,
{
    if n <= 0 {
        Seq::empty()
    } else if belongs(ps, conv, n - 1, c) {
        members_spec(ps, conv, c, n - 1).push((n - 1) as usize)
    } else {
        members_spec(ps, conv, c, n - 1)
    }
}

/// The postings before `n` that belong to none.
pub open spec fn strays_spec(ps: Seq<Parsed>, conv: Seq<bool>, n: int) -> Seq<usize>
    decreases n,
{
    if n <= 0 {
        Seq::empty()
    } else if assigned(ps, conv, n - 1) {
        strays_spec(ps, conv, n - 1)
    } else {
        strays_spec(ps, conv, n - 1).push((n - 1) as usize)
    }
}

/// The pair of equity amounts of a conversion.
pub open spec fn pair_spec(p: Parsed, ctx: Ctx, amounts: Seq<Seq<char>>) -> Option<Seq<Seq<char>>> {
    match decimal::difference_of(Num::zero(), p.value) {
        None => None,
        Some(n) => Some(
            seq![
                restyle::render_like_spec(n, p.commodity, ctx, amounts),
                restyle::render_like_spec(p.contributes.0, p.contributes.1, ctx, amounts),
            ],
        ),
    }
}

/// The groups of the conversions before `n`.
pub open spec fn groups_before_spec(
    ps: Seq<Parsed>,
    conv: Seq<bool>,
    ctx: Ctx,
    amounts: Seq<Seq<char>>,
    n: int,
) -> Option<Seq<Group>>
    decreases n,
{
    if n <= 0 {
        Some(Seq::empty())
    } else {
        match groups_before_spec(ps, conv, ctx, amounts, n - 1) {
            None => None,
            Some(before) => if !conv[n - 1] {
                Some(before)
            } else {
                match pair_spec(ps[n - 1], ctx, amounts) {
                    None => None,
                    Some(equity) => Some(
                        before.push(
                            Group {
                                postings: members_spec(ps, conv, n - 1, ps.len() as int),
                                equity,
                            },
                        ),
                    ),
                }
            },
        }
    }
}

/// The layout of a transaction's postings: `None` where nothing is converted
/// or some amount is not known.
pub open spec fn layout_spec(amounts: Seq<Seq<char>>, ctx: Ctx) -> Option<Layout> {
    let conv = amounts.map_values(|a: Seq<char>| converts_spec(a));
    match parsed_all_spec(amounts, ctx) {
        None => None,
        Some(ps) => if !conv.contains(true) {
            None
        } else {
            match groups_before_spec(ps, conv, ctx, amounts, amounts.len() as int) {
                None => None,
                Some(groups) => Some(
                    Layout { groups, unassigned: strays_spec(ps, conv, amounts.len() as int) },
                ),
            }
        },
    }
}

spec fn parsed_view(v: Seq<ParsedAmount>) -> Seq<Parsed> {
    v.map_values(|p: ParsedAmount| p@)
}

fn converts(field: &str) -> (r: bool)
    ensures
        r == converts_spec(field@),
{
    let toks = text::words(field);
    let (_num, _commodity, rest) = lex::split_amount(toks.as_slice());
    let ghost all = lex::split_amount_spec(text::words_spec(field@)).2;
    assert(all.len() == rest@.len());
    if rest.len() == 0 {
        false
    } else {
        assert(all[0] == rest@[0]@);
        match text::first(rest[0]) {
            Some(c) => c == '@',
            None => false,
        }
    }
}

fn parsed_all(amounts: &[&str], ctx: &AmountCtx) -> (r: Option<Vec<ParsedAmount>>)
    ensures
        match r {
            Some(v) => parsed_all_spec(text::strs(amounts@), ctx@) == Some(parsed_view(v@))
                && v@.len() == amounts@.len(),
            None => parsed_all_spec(text::strs(amounts@), ctx@) is None,
        },
{
    let ghost all = text::strs(amounts@);
    let mut out: Vec<ParsedAmount> = Vec::new();
    let mut i: usize = 0;
    assert(parsed_view(out@) =~= Seq::empty());
    while i < amounts.len()
        invariant
            i <= amounts.len(),
            all == text::strs(amounts@),
            out@.len() == i,
            parsed_all_spec(all.take(i as int), ctx@) == Some(parsed_view(out@)),
        decreases amounts.len() - i,
    {
        assert(all.take(i + 1).drop_last() =~= all.take(i as int));
        assert(all.take(i + 1).last() == amounts@[i as int]@);
        i = i + 1;
        match amount::parse_amount(amounts[i - 1], ctx) {
            None => {
                proof {
                    lemma_parsed_unknown(all, ctx@, i as int);
                }
                return None;
            },
            Some(p) => {
                let ghost before = out@;
                let ghost pv = p@;
                out.push(p);
                assert(parsed_view(out@) =~= parsed_view(before).push(pv));
            },
        }
    }
    assert(all.take(all.len() as int) =~= all);
    Some(out)
}

proof fn lemma_parsed_unknown(amounts: Seq<Seq<char>>, ctx: Ctx, n: int)
    requires
        0 <= n <= amounts.len(),
        parsed_all_spec(amounts.take(n), ctx) is None,
    ensures
        parsed_all_spec(amounts, ctx) is None,
    decreases amounts.len() - n,
{
    if n < amounts.len() {
        assert(amounts.take(n + 1).drop_last() =~= amounts.take(n));
        lemma_parsed_unknown(amounts, ctx, n + 1);
    } else {
        assert(amounts.take(n) =~= amounts);
    }
}

/// The conversion a posting belongs to, if it belongs to one.
fn home(ps: &[ParsedAmount], conv: &[bool], j: usize) -> (r: Option<usize>)
    requires
        j < ps@.len(),
        conv@.len() == ps@.len(),
    ensures
        match r {
            Some(c) => c < ps@.len() && forall|d: int|
                0 <= d < ps@.len() ==> (#[trigger] belongs(parsed_view(ps@), conv@, j as int, d)
                    <==> d == c),
            None => forall|d: int|
                0 <= d < ps@.len() ==> !#[trigger] belongs(
                    parsed_view(ps@),
                    conv@,
                    j as int,
                    d,
                ),
        },
{
    let ghost all = parsed_view(ps@);
    if conv[j] {
        return Some(j);
    }
    let ghost name = ps@[j as int].commodity@;
    let mut found: Option<usize> = None;
    let mut i: usize = 0;
    assert(all[j as int].commodity == name);
    while i < ps.len()
        invariant
            i <= ps@.len(),
            j < ps@.len(),
            conv@.len() == ps@.len(),
            !conv@[j as int],
            all == parsed_view(ps@),
            name == ps@[j as int].commodity@,
            match found {
                None => forall|d: int| 0 <= d < i ==> !#[trigger] pays_in(all, conv@, d, name),
                Some(c) => c < i && pays_in(all, conv@, c as int, name) && forall|d: int|
                    0 <= d < i && d != c ==> !#[trigger] pays_in(all, conv@, d, name),
            },
        decreases ps@.len() - i,
    {
        assert(all[i as int] == ps@[i as int]@);
        if conv[i] && text::same(ps[i].contributes.1.as_str(), ps[j].commodity.as_str()) {
            assert(pays_in(all, conv@, i as int, name));
            if let Some(c) = found {
                proof {
                    assert(pays_in(all, conv@, c as int, name));
                    assert forall|d: int| 0 <= d < ps@.len() implies !#[trigger] belongs(
                        all,
                        conv@,
                        j as int,
                        d,
                    ) by {
                        if d == c {
                            assert(pays_in(all, conv@, i as int, name));
                        } else {
                            assert(pays_in(all, conv@, c as int, name));
                        }
                    }
                }
                return None;
            }
            found = Some(i);
        }
        i = i + 1;
    }
    found
}

/// The homes of all postings.
fn homes(ps: &[ParsedAmount], conv: &[bool]) -> (r: Vec<Option<usize>>)
    requires
        conv@.len() == ps@.len(),
    ensures
        r@.len() == ps@.len(),
        forall|j: int, d: int|
            0 <= j < ps@.len() && 0 <= d < ps@.len() ==> (#[trigger] belongs(
                parsed_view(ps@),
                conv@,
                j,
                d,
            ) <==> r@[j] == Some(d as usize)),
        forall|j: int|
            0 <= j < ps@.len() ==> (match #[trigger] r@[j] {
                Some(c) => c < ps@.len(),
                None => true,
            }),
{
    let ghost all = parsed_view(ps@);
    let mut out: Vec<Option<usize>> = Vec::new();
    let mut j: usize = 0;
    while j < ps.len()
        invariant
            j <= ps@.len(),
            conv@.len() == ps@.len(),
            all == parsed_view(ps@),
            out@.len() == j,
            forall|k: int, d: int|
                0 <= k < j && 0 <= d < ps@.len() ==> (#[trigger] belongs(all, conv@, k, d)
                    <==> out@[k] == Some(d as usize)),
            forall|k: int|
                0 <= k < j ==> (match #[trigger] out@[k] {
                    Some(c) => c < ps@.len(),
                    None => true,
                }),
        decreases ps@.len() - j,
    {
        let ghost before = out@;
        let h = home(ps, conv, j);
        out.push(h);
        proof {
            assert forall|k: int, d: int| 0 <= k < j + 1 && 0 <= d < ps@.len() implies (
            #[trigger] belongs(all, conv@, k, d) <==> out@[k] == Some(d as usize)) by {
                if k < j {
                    assert(out@[k] == before[k]);
                }
            }
            assert forall|k: int| 0 <= k < j + 1 implies (match #[trigger] out@[k] {
                Some(c) => c < ps@.len(),
                None => true,
            }) by {
                if k < j {
                    assert(out@[k] == before[k]);
                }
            }
        }
        j = j + 1;
    }
    out
}

/// Arrange the postings of a transaction by conversion.
///
/// Each posting with a cost is a conversion. A posting without one belongs to
/// the conversion whose cost is in its commodity, if there is exactly one; a
/// payment that funds two conversions belongs to neither.
#[must_use]
pub fn conversion_layout(amounts: &[&str], ctx: &AmountCtx) -> (r: Option<ConversionLayout>)
    ensures
        match r {
            Some(l) => layout_spec(text::strs(amounts@), ctx@) == Some(l@),
            None => layout_spec(text::strs(amounts@), ctx@) is None,
        },
{
    let ghost all = text::strs(amounts@);
    let ps = match parsed_all(amounts, ctx) {
        None => return None,
        Some(v) => v,
    };
    let n: usize = amounts.len();
    let mut conv: Vec<bool> = Vec::new();
    let mut any = false;
    let mut i: usize = 0;
    let ghost conv_spec = all.map_values(|a: Seq<char>| converts_spec(a));
    while i < n
        invariant
            i <= n,
            n == amounts@.len(),
            all == text::strs(amounts@),
            conv_spec == all.map_values(|a: Seq<char>| converts_spec(a)),
            conv@ == conv_spec.take(i as int),
            any == conv_spec.take(i as int).contains(true),
        decreases n - i,
    {
        assert(all[i as int] == amounts@[i as int]@);
        let c = converts(amounts[i]);
        assert(conv_spec[i as int] == c);
        let ghost before = conv_spec.take(i as int);
        conv.push(c);
        i = i + 1;
        assert(conv_spec.take(i as int) =~= before.push(c));
        proof {
            if c {
                assert(conv_spec.take(i as int)[i - 1] == true);
            } else if before.contains(true) {
                let w = choose|w: int| 0 <= w < before.len() && before[w];
                assert(conv_spec.take(i as int)[w]);
            }
        }
        any = any || c;
    }
    assert(conv_spec.take(n as int) =~= conv_spec);
    if !any {
        return None;
    }
    let ghost pv = parsed_view(ps@);
    let hs = homes(ps.as_slice(), conv.as_slice());
    let mut groups: Vec<ConversionGroup> = Vec::new();
    let mut c: usize = 0;
    assert(groups_view(groups@) =~= Seq::empty());
    while c < n
        invariant
            c <= n,
            n == amounts@.len() == ps@.len() == conv@.len() == hs@.len(),
            all == text::strs(amounts@),
            conv@ == conv_spec,
            conv_spec == all.map_values(|a: Seq<char>| converts_spec(a)),
            conv_spec.contains(true),
            pv == parsed_view(ps@),
            parsed_all_spec(all, ctx@) == Some(pv),
            forall|j: int, d: int|
                0 <= j < n && 0 <= d < n ==> (#[trigger] belongs(pv, conv@, j, d) <==> hs@[j]
                    == Some(d as usize)),
            groups_before_spec(pv, conv@, ctx@, all, c as int) == Some(groups_view(groups@)),
        decreases n - c,
    {
        c = c + 1;
        if conv[c - 1] {
            let mut postings: Vec<usize> = Vec::new();
            let mut j: usize = 0;
            while j < n
                invariant
                    j <= n,
                    1 <= c <= n,
                    n == hs@.len(),
                    forall|j: int, d: int|
                        0 <= j < n && 0 <= d < n ==> (#[trigger] belongs(pv, conv@, j, d)
                            <==> hs@[j] == Some(d as usize)),
                    postings@ == members_spec(pv, conv@, c - 1, j as int),
                decreases n - j,
            {
                assert(belongs(pv, conv@, j as int, c - 1) <==> hs@[j as int] == Some(
                    (c - 1) as usize,
                ));
                if let Some(h) = hs[j] {
                    if h == c - 1 {
                        postings.push(j);
                    }
                }
                j = j + 1;
            }
            let p = &ps[c - 1];
            assert(pv[c - 1] == p@);
            match Quantity::zero().checked_difference(p.value) {
                None => {
                    proof {
                        lemma_groups_unknown(pv, conv@, ctx@, all, c as int, n as int);
                    }
                    return None;
                },
                Some(neg) => {
                    let mut equity: Vec<String> = Vec::new();
                    equity.push(
                        restyle::render_amount_like(neg, p.commodity.as_str(), ctx, amounts),
                    );
                    equity.push(
                        restyle::render_amount_like(
                            p.contributes.0,
                            p.contributes.1.as_str(),
                            ctx,
                            amounts,
                        ),
                    );
                    let ghost before = groups@;
                    let group = ConversionGroup { postings, equity };
                    let ghost gv = group@;
                    assert(Some(gv.equity) =~= pair_spec(p@, ctx@, all)) by {
                        assert(gv.equity =~= pair_spec(p@, ctx@, all)->0);
                    }
                    groups.push(group);
                    assert(groups_view(groups@) =~= groups_view(before).push(gv));
                },
            }
        }
    }
    let mut unassigned: Vec<usize> = Vec::new();
    let mut j: usize = 0;
    while j < n
        invariant
            j <= n,
            n == ps@.len() == hs@.len(),
            pv == parsed_view(ps@),
            forall|j: int, d: int|
                0 <= j < n && 0 <= d < n ==> (#[trigger] belongs(pv, conv@, j, d) <==> hs@[j]
                    == Some(d as usize)),
            forall|k: int|
                0 <= k < n ==> (match #[trigger] hs@[k] {
                    Some(c) => c < n,
                    None => true,
                }),
            unassigned@ == strays_spec(pv, conv@, j as int),
        decreases n - j,
    {
        match hs[j] {
            Some(h) => {
                assert(belongs(pv, conv@, j as int, h as int));
                assert(assigned(pv, conv@, j as int));
            },
            None => {
                assert(!assigned(pv, conv@, j as int));
                unassigned.push(j);
            },
        }
        j = j + 1;
    }
    Some(ConversionLayout { groups, unassigned })
}

proof fn lemma_groups_unknown(
    ps: Seq<Parsed>,
    conv: Seq<bool>,
    ctx: Ctx,
    amounts: Seq<Seq<char>>,
    m: int,
    n: int,
)
    requires
        0 <= m <= n,
        groups_before_spec(ps, conv, ctx, amounts, m) is None,
    ensures
        groups_before_spec(ps, conv, ctx, amounts, n) is None,
    decreases n - m,
{
    if m < n {
        lemma_groups_unknown(ps, conv, ctx, amounts, m, n - 1);
    }
}

} // verus!
