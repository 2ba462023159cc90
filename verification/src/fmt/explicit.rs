//! `--explicit`: write out the amounts hledger would otherwise infer.
//!
//! One posting per transaction may leave its amount off; it follows from the
//! others. This module writes it into the journal itself, so the file says
//! what it means.
//!
//! - Real postings, balanced-virtual (`[...]`) postings and unbalanced-virtual
//!   (`(...)`) postings balance separately. Only the first two infer anything;
//!   an unbalanced virtual posting contributes to no sum and is skipped.
//! - Exactly one posting in a group may be missing its amount. Zero means
//!   there is nothing to fill in; two or more is an error that is not the
//!   formatter's to report, so the transaction is left as it stands.
//! - A posting carrying only a balance assertion (`Assets:Cash  = 0 EUR`) is
//!   missing its amount too, and gets one in front of the assertion.
//! - When the remainder spans several commodities the inferred posting is
//!   split into one posting per commodity.
//! - A remainder of zero still gets written: `0 EUR`, not nothing.
//!
//! Anything the arithmetic cannot reach — an unparseable amount elsewhere in
//! the transaction, a periodic or auto transaction — is passed through
//! untouched. Filling in a wrong amount would be far worse than filling in
//! none.

use vstd::prelude::*;
use vstd::string::*;
use crate::amount::{self, AmountCtx, Ctx};
use crate::decimal::{self, Num, Quantity};
use crate::fmt::posting::{self, Post, Posting};
use crate::text;
use crate::lex;
use crate::restyle;

verus! {

/// What a physical line is, once classified.
pub enum Class {
    /// A posting line, parsed and restyled: the only kind that is reflowed.
    ///
    /// Normally one posting, and always one without `--explicit`. Filling in
    /// an inferred amount that spans commodities turns the line into several.
    Post(Vec<Posting>),
    /// Anything else the formatter may touch.
    Other,
    /// A line inside a `comment` block, or one of its delimiters: passed
    /// through byte-for-byte, since its contents are not journal syntax.
    Opaque,
}

/// What a classified line says.
#[verifier::ext_equal]
pub enum Line {
    Post(Seq<Post>),
    Other,
    Opaque,
}

impl View for Class {
    type V = Line;

    open spec fn view(&self) -> Line {
        match self {
            Class::Post(ps) => Line::Post(posting::posts(ps@)),
            Class::Other => Line::Other,
            Class::Opaque => Line::Opaque,
        }
    }
}

/// What a list of classified lines says.
pub open spec fn lines_view(v: Seq<Class>) -> Seq<Line> {
    v.map_values(|c: Class| c@)
}

impl Line {
    /// The postings a line renders as.
    pub open spec fn postings(self) -> Seq<Post> {
        match self {
            Line::Post(ps) => ps,
            _ => Seq::empty(),
        }
    }

    /// Whether one of the postings balances in a group.
    pub open spec fn is_in(self, group: Group) -> bool {
        exists|i: int|
            0 <= i < self.postings().len() && group.holds_spec(#[trigger] self.postings()[i])
    }

    /// Whether one of the postings waits for an amount.
    pub open spec fn waits(self) -> bool {
        exists|i: int| 0 <= i < self.postings().len() && (#[trigger] self.postings()[i]).waits()
    }
}

/// Which set of postings a posting balances against.
#[derive(Debug, Clone, Copy, PartialEq, Eq, Structural)]
pub enum Group {
    /// An ordinary posting.
    Real,
    /// `[Account]` — balances among its own kind.
    Balanced,
    /// `(Account)` — balances against nothing.
    Unbalanced,
}

impl Group {
    /// The group of an account: that of its bracket, behind a status marker.
    pub open spec fn of_spec(account: Seq<char>) -> Group {
        let a = lex::strip_status_spec(account);
        if a.len() > 0 && a[0] == '[' {
            Group::Balanced
        } else if a.len() > 0 && a[0] == '(' {
            Group::Unbalanced
        } else {
            Group::Real
        }
    }

    /// Whether a posting balances in the group. Comment lines balance in none.
    pub open spec fn holds_spec(self, p: Post) -> bool {
        match p.account() {
            None => false,
            Some(a) => Group::of_spec(a) == self,
        }
    }

    /// The group an account's postings balance in.
    pub fn of(account: &str) -> (r: Group)
        ensures
            r == Group::of_spec(account@),
    {
        match text::first(lex::strip_status(account)) {
            Some(c) => if c == '[' {
                Group::Balanced
            } else if c == '(' {
                Group::Unbalanced
            } else {
                Group::Real
            },
            None => Group::Real,
        }
    }
}

/// The lines before `n` that wait for an amount in a group.
pub open spec fn waiting_spec(txn: Seq<Line>, group: Group, n: int) -> Seq<int>
    decreases n,
{
    if n <= 0 {
        Seq::empty()
    } else if txn[n - 1].is_in(group) && txn[n - 1].waits() {
        waiting_spec(txn, group, n - 1).push(n - 1)
    } else {
        waiting_spec(txn, group, n - 1)
    }
}

/// A posting's amount, face and tail, as one text.
pub open spec fn amount_text_spec(p: Post) -> Option<Seq<char>> {
    match p {
        Post::Amount { num, commodity, rest, .. } => {
            let parts = (if num.len() == 0 {
                Seq::empty()
            } else {
                seq![num]
            }) + (if commodity.len() == 0 {
                Seq::empty()
            } else {
                seq![commodity]
            }) + rest;
            if parts.len() == 0 {
                None
            } else {
                Some(text::join_spec(parts, " "@))
            }
        },
        _ => None,
    }
}

/// The amounts of postings that have one.
pub open spec fn amount_texts_spec(ps: Seq<Post>) -> Seq<Seq<char>>
    decreases ps.len(),
{
    if ps.len() == 0 {
        Seq::empty()
    } else {
        match amount_text_spec(ps.last()) {
            None => amount_texts_spec(ps.drop_last()),
            Some(t) => amount_texts_spec(ps.drop_last()).push(t),
        }
    }
}

/// The amounts of a group in the lines before `n`, those of line `target` left
/// out.
pub open spec fn siblings_spec(txn: Seq<Line>, group: Group, target: int, n: int) -> Seq<Seq<char>>
    decreases n,
{
    if n <= 0 {
        Seq::empty()
    } else if txn[n - 1].is_in(group) && n - 1 != target {
        siblings_spec(txn, group, target, n - 1) + amount_texts_spec(txn[n - 1].postings())
    } else {
        siblings_spec(txn, group, target, n - 1)
    }
}

/// The sums negated, zeros left out: `None` where one cannot be negated.
pub open spec fn negated_spec(sums: Seq<(Seq<char>, Num)>) -> Option<Seq<(Seq<char>, Num)>>
    decreases sums.len(),
{
    if sums.len() == 0 {
        Some(Seq::empty())
    } else {
        match negated_spec(sums.drop_last()) {
            None => None,
            Some(before) => if sums.last().1.mantissa == 0 {
                Some(before)
            } else {
                match decimal::difference_of(Num::zero(), sums.last().1) {
                    None => None,
                    Some(n) => Some(before.push((sums.last().0, n))),
                }
            },
        }
    }
}

/// Amounts rendered.
pub open spec fn rendered_spec(
    sums: Seq<(Seq<char>, Num)>,
    ctx: Ctx,
    siblings: Seq<Seq<char>>,
) -> Seq<Seq<char>> {
    sums.map_values(
        |s: (Seq<char>, Num)| restyle::render_like_spec(s.1, s.0, ctx, siblings),
    )
}

/// Whether every amount reads as what it is once it is rendered.
pub open spec fn all_readable(
    sums: Seq<(Seq<char>, Num)>,
    ctx: Ctx,
    siblings: Seq<Seq<char>>,
) -> bool {
    forall|i: int|
        0 <= i < sums.len() ==> restyle::generated_spec(
            (#[trigger] sums[i]).1,
            sums[i].0,
            ctx,
            siblings,
        ) is Some
}

/// What is missing: the negated sums, or a zero of the first commodity where
/// all are zero.
pub open spec fn missing_spec(sums: Seq<(Seq<char>, Num)>) -> Option<Seq<(Seq<char>, Num)>> {
    if sums.len() == 0 {
        None
    } else {
        match negated_spec(sums) {
            None => None,
            Some(neg) => if neg.len() == 0 {
                Some(seq![(sums[0].0, Num::zero())])
            } else {
                Some(neg)
            },
        }
    }
}

/// The amounts the inferred posting must carry: what is missing, where all of
/// it can be written so that it reads as what it is.
pub open spec fn remainder_spec(
    sums: Seq<(Seq<char>, Num)>,
    ctx: Ctx,
    siblings: Seq<Seq<char>>,
) -> Option<Seq<Seq<char>>> {
    match missing_spec(sums) {
        Some(due) if all_readable(due, ctx, siblings) => Some(rendered_spec(due, ctx, siblings)),
        _ => None,
    }
}

/// A posting with one amount of a rendered list.
pub open spec fn filled_spec(
    account: Seq<char>,
    amt: Seq<char>,
    rest: Seq<Seq<char>>,
    comment: Option<Seq<char>>,
) -> Post {
    let (num, commodity, _) = lex::split_amount_spec(text::words_spec(amt));
    Post::Amount { account, num, commodity, rest, comment }
}

/// What a posting becomes once the amounts are known: one that waits becomes
/// one posting per amount, the first keeping the comment. One with a tail
/// takes a single amount and is left alone otherwise.
pub open spec fn apply_one_spec(p: Post, filled: Seq<Seq<char>>) -> Seq<Post> {
    if !p.waits() {
        seq![p]
    } else {
        match p {
            Post::Bare(account, comment) => Seq::new(
                filled.len(),
                |n: int|
                    filled_spec(
                        account,
                        filled[n],
                        Seq::empty(),
                        if n == 0 {
                            comment
                        } else {
                            None
                        },
                    ),
            ),
            Post::Amount { account, rest, comment, .. } => if filled.len() == 1 {
                seq![filled_spec(account, filled[0], rest, comment)]
            } else {
                seq![p]
            },
            Post::Comment(_) => seq![p],
        }
    }
}

/// What postings become once the amounts are known.
pub open spec fn apply_spec(ps: Seq<Post>, filled: Seq<Seq<char>>) -> Seq<Post>
    decreases ps.len(),
{
    if ps.len() == 0 {
        Seq::empty()
    } else {
        apply_spec(ps.drop_last(), filled) + apply_one_spec(ps.last(), filled)
    }
}

/// The lines of a transaction with the inferred amount of one group filled in,
/// where exactly one line waits for it and it can be worked out.
pub open spec fn fill_group_spec(txn: Seq<Line>, ctx: Ctx, group: Group) -> Seq<Line> {
    let waiting = waiting_spec(txn, group, txn.len() as int);
    if waiting.len() != 1 {
        txn
    } else {
        let target = waiting[0];
        let siblings = siblings_spec(txn, group, target, txn.len() as int);
        match amount::sums_spec(siblings, ctx, false) {
            None => txn,
            Some(sums) => match remainder_spec(sums, ctx, siblings) {
                None => txn,
                Some(filled) => txn.update(
                    target,
                    Line::Post(apply_spec(txn[target].postings(), filled)),
                ),
            },
        }
    }
}

/// The lines of a transaction with its inferred amounts filled in.
pub open spec fn fill_spec(txn: Seq<Line>, ctx: Ctx) -> Seq<Line> {
    fill_group_spec(fill_group_spec(txn, ctx, Group::Real), ctx, Group::Balanced)
}

/// Whether a posting is waiting for an amount: no account-side amount at all,
/// or only a cost/assertion tail.
pub fn needs_amount(p: &Posting) -> (r: bool)
    ensures
        r == p@.waits(),
{
    match p {
        Posting::Bare(_, _) => true,
        Posting::Amount { num, commodity, .. } => num.as_str().is_empty()
            && commodity.as_str().is_empty(),
        Posting::Comment(_) => false,
    }
}

/// Whether a posting balances in `group`. Comment lines belong to none.
pub fn in_group(p: &Posting, group: Group) -> (r: bool)
    ensures
        r == group.holds_spec(p@),
{
    match posting::account_of(p) {
        None => false,
        Some(a) => Group::of(a) == group,
    }
}

/// A posting's amount as the balance wants to read it — face plus tail.
/// `None` for a posting that carries no amount.
pub fn amount_text(p: &Posting) -> (r: Option<String>)
    ensures
        text::opt_text(r) == amount_text_spec(p@),
{
    match p {
        Posting::Amount { num, commodity, rest, .. } => {
            let mut parts: Vec<&str> = Vec::new();
            if !num.as_str().is_empty() {
                parts.push(num.as_str());
            }
            if !commodity.as_str().is_empty() {
                parts.push(commodity.as_str());
            }
            let ghost face = parts@;
            let mut tail = text::refs(rest.as_slice());
            let ghost t = tail@;
            parts.append(&mut tail);
            assert(text::strs(parts@) =~= text::strs(face) + text::strs(t));
            assert(text::strs(face) =~= (if num@.len() == 0 {
                Seq::empty()
            } else {
                seq![num@]
            }) + (if commodity@.len() == 0 {
                Seq::empty()
            } else {
                seq![commodity@]
            }));
            assert(text::strs(parts@).len() == parts@.len());
            if parts.len() == 0 {
                None
            } else {
                Some(text::join(parts.as_slice(), " "))
            }
        },
        _ => None,
    }
}

/// Whether one of a line's postings balances in a group.
fn line_in(c: &Class, group: Group) -> (r: bool)
    ensures
        r == c@.is_in(group),
{
    match c {
        Class::Post(ps) => {
            let ghost all = posting::posts(ps@);
            let mut i: usize = 0;
            while i < ps.len()
                invariant
                    i <= ps.len(),
                    all == posting::posts(ps@),
                    c@.postings() == all,
                    forall|j: int| 0 <= j < i ==> !group.holds_spec(#[trigger] all[j]),
                decreases ps.len() - i,
            {
                assert(all[i as int] == ps@[i as int]@);
                if in_group(&ps[i], group) {
                    assert(group.holds_spec(c@.postings()[i as int]));
                    return true;
                }
                i = i + 1;
            }
            false
        },
        _ => false,
    }
}

/// Whether one of a line's postings waits for an amount.
fn line_waits(c: &Class) -> (r: bool)
    ensures
        r == c@.waits(),
{
    match c {
        Class::Post(ps) => {
            let ghost all = posting::posts(ps@);
            let mut i: usize = 0;
            while i < ps.len()
                invariant
                    i <= ps.len(),
                    all == posting::posts(ps@),
                    c@.postings() == all,
                    forall|j: int| 0 <= j < i ==> !(#[trigger] all[j]).waits(),
                decreases ps.len() - i,
            {
                assert(all[i as int] == ps@[i as int]@);
                if needs_amount(&ps[i]) {
                    assert(c@.postings()[i as int].waits());
                    return true;
                }
                i = i + 1;
            }
            false
        },
        _ => false,
    }
}

/// Put the amounts of a line's postings on a list.
fn push_amounts(out: &mut Vec<String>, c: &Class)
    ensures
        text::texts(final(out)@) == text::texts(old(out)@) + amount_texts_spec(c@.postings()),
{
    let ghost before = text::texts(out@);
    match c {
        Class::Post(ps) => {
            let ghost all = posting::posts(ps@);
            let mut i: usize = 0;
            assert(text::texts(out@) =~= before + amount_texts_spec(all.take(0)));
            while i < ps.len()
                invariant
                    i <= ps.len(),
                    all == posting::posts(ps@),
                    text::texts(out@) == before + amount_texts_spec(all.take(i as int)),
                decreases ps.len() - i,
            {
                assert(all.take(i + 1).drop_last() =~= all.take(i as int));
                assert(all.take(i + 1).last() == ps@[i as int]@);
                let ghost now = text::texts(out@);
                if let Some(t) = amount_text(&ps[i]) {
                    let ghost tv = t@;
                    out.push(t);
                    assert(text::texts(out@) =~= now.push(tv));
                    assert(now.push(tv) =~= before + amount_texts_spec(all.take(i as int)).push(
                        tv,
                    ));
                }
                i = i + 1;
            }
            assert(all.take(all.len() as int) =~= all);
        },
        _ => {
            assert(text::texts(out@) =~= before + amount_texts_spec(Seq::empty()));
        },
    }
}

/// The sums negated, zeros left out.
fn negated(sums: &[(String, Quantity)]) -> (r: Option<Vec<(String, Quantity)>>)
    ensures
        amount::opt_sums(r) == negated_spec(amount::sums_view(sums@)),
{
    let ghost all = amount::sums_view(sums@);
    let mut out: Vec<(String, Quantity)> = Vec::new();
    let mut i: usize = 0;
    assert(amount::sums_view(out@) =~= Seq::empty());
    while i < sums.len()
        invariant
            i <= sums.len(),
            all == amount::sums_view(sums@),
            negated_spec(all.take(i as int)) == Some(amount::sums_view(out@)),
        decreases sums.len() - i,
    {
        assert(all.take(i + 1).drop_last() =~= all.take(i as int));
        assert(all.take(i + 1).last() == (sums@[i as int].0@, sums@[i as int].1@));
        i = i + 1;
        let value = sums[i - 1].1;
        if !value.is_zero() {
            match Quantity::zero().checked_difference(value) {
                None => {
                    proof {
                        lemma_negated_unknown(all, i as int);
                    }
                    return None;
                },
                Some(n) => {
                    let ghost before = out@;
                    out.push((sums[i - 1].0.clone(), n));
                    assert(amount::sums_view(out@) =~= amount::sums_view(before).push(
                        (sums@[i - 1].0@, n@),
                    ));
                },
            }
        }
    }
    assert(all.take(all.len() as int) =~= all);
    Some(out)
}

proof fn lemma_negated_unknown(sums: Seq<(Seq<char>, Num)>, n: int)
    requires
        0 <= n <= sums.len(),
        negated_spec(sums.take(n)) is None,
    ensures
        negated_spec(sums) is None,
    decreases sums.len() - n,
{
    if n < sums.len() {
        assert(sums.take(n + 1).drop_last() =~= sums.take(n));
        lemma_negated_unknown(sums, n + 1);
    } else {
        assert(sums.take(n) =~= sums);
    }
}

/// What an optional list of texts says.
pub open spec fn opt_texts(o: Option<Vec<String>>) -> Option<Seq<Seq<char>>> {
    match o {
        Some(v) => Some(text::texts(v@)),
        None => None,
    }
}

/// The amounts the inferred posting must carry: the negated sums, rendered.
///
/// Zero sums drop out, since a commodity that already balances needs no
/// posting — except when *everything* balances, where an explicit zero in the
/// first commodity seen is still written.
///
/// `siblings` are the amounts being balanced against, which supply the
/// display style for any commodity that declares none. Where one of the
/// amounts would read as another in its style, none is given.
pub fn remainder(sums: &[(String, Quantity)], ctx: &AmountCtx, siblings: &[&str]) -> (r: Option<
    Vec<String>,
>)
    ensures
        opt_texts(r) == remainder_spec(amount::sums_view(sums@), ctx@, text::strs(siblings@)),
{
    let ghost all = amount::sums_view(sums@);
    assert(all.len() == sums@.len());
    if sums.len() == 0 {
        return None;
    }
    assert(all[0].0 == sums@[0].0@);
    let mut due = match negated(sums) {
        None => return None,
        Some(neg) => neg,
    };
    assert(amount::sums_view(due@).len() == due@.len());
    if due.len() == 0 {
        due.push((sums[0].0.clone(), Quantity::zero()));
        assert(amount::sums_view(due@) =~= seq![(all[0].0, Num::zero())]);
    }
    let ghost dv = amount::sums_view(due@);
    assert(missing_spec(all) == Some(dv));
    let ghost want = rendered_spec(dv, ctx@, text::strs(siblings@));
    let mut out: Vec<String> = Vec::new();
    let mut i: usize = 0;
    assert(text::texts(out@) =~= want.take(0));
    while i < due.len()
        invariant
            i <= due.len(),
            dv == amount::sums_view(due@),
            missing_spec(all) == Some(dv),
            all == amount::sums_view(sums@),
            want == rendered_spec(dv, ctx@, text::strs(siblings@)),
            text::texts(out@) == want.take(i as int),
            forall|j: int|
                0 <= j < i ==> restyle::generated_spec(
                    (#[trigger] dv[j]).1,
                    dv[j].0,
                    ctx@,
                    text::strs(siblings@),
                ) is Some,
        decreases due.len() - i,
    {
        assert(dv[i as int] == (due@[i as int].0@, due@[i as int].1@));
        let ghost before = text::texts(out@);
        match restyle::generate_amount_like(due[i].1, due[i].0.as_str(), ctx, siblings) {
            None => {
                assert(!all_readable(dv, ctx@, text::strs(siblings@)));
                return None;
            },
            Some(s) => {
                let ghost sv = s@;
                out.push(s);
                assert(text::texts(out@) =~= before.push(sv));
            },
        }
        i = i + 1;
        assert(want.take(i as int) =~= want.take(i - 1).push(want[i - 1]));
    }
    assert(want.take(want.len() as int) =~= want);
    Some(out)
}

/// What one posting becomes once the amounts are known.
fn apply_one(p: &Posting, filled: &[String]) -> (r: Vec<Posting>)
    ensures
        posting::posts(r@) == apply_one_spec(p@, text::texts(filled@)),
{
    let ghost fv = text::texts(filled@);
    assert(fv.len() == filled@.len());
    let mut out: Vec<Posting> = Vec::new();
    if needs_amount(p) {
        match p {
            Posting::Bare(account, comment) => {
                // The comment describes the posting the user wrote, so it
                // stays with the first of the postings replacing it.
                let ghost want = apply_one_spec(p@, fv);
                let mut n: usize = 0;
                assert(posting::posts(out@) =~= want.take(0));
                while n < filled.len()
                    invariant
                        n <= filled.len(),
                        fv == text::texts(filled@),
                        p@ == Post::Bare(account@, text::opt_text(*comment)),
                        want == apply_one_spec(p@, fv),
                        want.len() == fv.len(),
                        posting::posts(out@) == want.take(n as int),
                    decreases filled.len() - n,
                {
                    assert(fv[n as int] == filled@[n as int]@);
                    let (num, commodity) = restyle::split_rendered(filled[n].as_str());
                    let rest: Vec<String> = Vec::new();
                    assert(text::texts(rest@) =~= Seq::empty());
                    let q = Posting::Amount {
                        account: account.clone(),
                        num,
                        commodity,
                        rest,
                        comment: if n == 0 {
                            text::copy_opt(comment)
                        } else {
                            None
                        },
                    };
                    let ghost before = posting::posts(out@);
                    let ghost qv = q@;
                    assert(qv == want[n as int]);
                    out.push(q);
                    n = n + 1;
                    assert(posting::posts(out@) =~= before.push(qv));
                    assert(want.take(n as int) =~= want.take(n - 1).push(want[n - 1]));
                }
                assert(want.take(want.len() as int) =~= want);
                return out;
            },
            Posting::Amount { account, rest, comment, .. } => {
                if filled.len() == 1 {
                    assert(fv[0] == filled@[0]@);
                    let (num, commodity) = restyle::split_rendered(filled[0].as_str());
                    let q = Posting::Amount {
                        account: account.clone(),
                        num,
                        commodity,
                        rest: text::copies(rest.as_slice()),
                        comment: text::copy_opt(comment),
                    };
                    let ghost qv = q@;
                    out.push(q);
                    assert(posting::posts(out@) =~= seq![qv]);
                    return out;
                }
            },
            Posting::Comment(_) => {},
        }
    }
    out.push(p.duplicate());
    assert(posting::posts(out@) =~= seq![p@]);
    out
}

/// Put `filled` into the waiting posting, splitting it into one posting per
/// commodity when there is more than one.
///
/// A posting that carries a balance assertion or a cost cannot be split — the
/// tail belongs to a single commodity, and duplicating it would assert
/// something nobody wrote. Such a posting is left alone rather than mangled.
fn apply(ps: &[Posting], filled: &[String]) -> (r: Vec<Posting>)
    ensures
        posting::posts(r@) == apply_spec(posting::posts(ps@), text::texts(filled@)),
{
    let ghost all = posting::posts(ps@);
    let mut out: Vec<Posting> = Vec::new();
    let mut i: usize = 0;
    assert(posting::posts(out@) =~= Seq::empty());
    while i < ps.len()
        invariant
            i <= ps.len(),
            all == posting::posts(ps@),
            posting::posts(out@) == apply_spec(all.take(i as int), text::texts(filled@)),
        decreases ps.len() - i,
    {
        assert(all.take(i + 1).drop_last() =~= all.take(i as int));
        assert(all.take(i + 1).last() == ps@[i as int]@);
        let ghost before = out@;
        let mut one = apply_one(&ps[i], filled);
        let ghost o = one@;
        out.append(&mut one);
        assert(posting::posts(out@) =~= posting::posts(before) + posting::posts(o));
        i = i + 1;
    }
    assert(all.take(all.len() as int) =~= all);
    out
}

/// The lines that wait for an amount in a group.
fn waiting(txn: &[Class], group: Group) -> (r: Vec<usize>)
    ensures
        r@.map_values(|i: usize| i as int) == waiting_spec(
            lines_view(txn@),
            group,
            txn@.len() as int,
        ),
        forall|k: int| 0 <= k < r@.len() ==> #[trigger] r@[k] < txn@.len(),
{
    let ghost all = lines_view(txn@);
    let mut out: Vec<usize> = Vec::new();
    let mut i: usize = 0;
    assert(out@.map_values(|i: usize| i as int) =~= Seq::empty());
    while i < txn.len()
        invariant
            i <= txn.len(),
            all == lines_view(txn@),
            out@.map_values(|i: usize| i as int) == waiting_spec(all, group, i as int),
            forall|k: int| 0 <= k < out@.len() ==> #[trigger] out@[k] < txn@.len(),
        decreases txn.len() - i,
    {
        assert(all[i as int] == txn@[i as int]@);
        if line_in(&txn[i], group) && line_waits(&txn[i]) {
            let ghost before = out@;
            out.push(i);
            assert(out@.map_values(|i: usize| i as int) =~= before.map_values(
                |i: usize| i as int,
            ).push(i as int));
        }
        i = i + 1;
    }
    out
}

/// The amounts of a group, those of line `target` left out.
fn siblings(txn: &[Class], group: Group, target: usize) -> (r: Vec<String>)
    ensures
        text::texts(r@) == siblings_spec(
            lines_view(txn@),
            group,
            target as int,
            txn@.len() as int,
        ),
{
    let ghost all = lines_view(txn@);
    let mut out: Vec<String> = Vec::new();
    let mut i: usize = 0;
    assert(text::texts(out@) =~= Seq::empty());
    while i < txn.len()
        invariant
            i <= txn.len(),
            all == lines_view(txn@),
            text::texts(out@) == siblings_spec(all, group, target as int, i as int),
        decreases txn.len() - i,
    {
        assert(all[i as int] == txn@[i as int]@);
        if line_in(&txn[i], group) && i != target {
            push_amounts(&mut out, &txn[i]);
        }
        i = i + 1;
    }
    out
}

/// Fill in the inferred amount of one group of a transaction's postings.
fn fill_group(txn: Vec<Class>, ctx: &AmountCtx, group: Group) -> (r: Vec<Class>)
    ensures
        lines_view(r@) == fill_group_spec(lines_view(txn@), ctx@, group),
        r@.len() == txn@.len(),
{
    let ghost all = lines_view(txn@);
    // Exactly one posting may be waiting for an amount.
    let w = waiting(txn.as_slice(), group);
    let ghost wv = w@.map_values(|i: usize| i as int);
    assert(wv.len() == w@.len());
    if w.len() != 1 {
        return txn;
    }
    let target: usize = w[0];
    assert(wv[0] == target as int);
    let texts = siblings(txn.as_slice(), group, target);
    let refs = text::refs(texts.as_slice());
    let sums = match amount::balance(refs.as_slice(), ctx) {
        None => return txn,
        Some(s) => s,
    };
    match remainder(sums.as_slice(), ctx, refs.as_slice()) {
        None => txn,
        Some(filled) => {
            assert(all[target as int] == txn@[target as int]@);
            let replaced = match &txn[target] {
                Class::Post(ps) => apply(ps.as_slice(), filled.as_slice()),
                _ => {
                    let none: Vec<Posting> = Vec::new();
                    assert(posting::posts(none@) =~= Seq::empty());
                    none
                },
            };
            let mut out = txn;
            let class = Class::Post(replaced);
            let ghost cv = class@;
            out.set(target, class);
            assert(lines_view(out@) =~= all.update(target as int, cv));
            out
        },
    }
}

/// Fill in the inferred amounts of one transaction's posting lines.
///
/// `txn` is the classified line run following a transaction header; lines that
/// are not postings are ignored.
pub fn fill(txn: Vec<Class>, ctx: &AmountCtx) -> (r: Vec<Class>)
    ensures
        lines_view(r@) == fill_spec(lines_view(txn@), ctx@),
        r@.len() == txn@.len(),
{
    fill_group(fill_group(txn, ctx, Group::Real), ctx, Group::Balanced)
}

} // verus!
