//! What an entry session promises of the transactions it takes.

use vstd::prelude::*;
use crate::add::frecency;
use crate::add::parser::Txn;
use crate::add::scope::Rewrites;
use crate::add::ui::frame;
use crate::add::ui::plain;
use crate::add::ui::preview;
use crate::add::ui::session::Sitting;
use crate::add::ui::submit::{self, Reply};
use crate::add::write::{NewPost, NewTxn};
use crate::amount;
use crate::config::EquityConversion;
use crate::conversions;
use crate::decimal::{self, Num};
use crate::entered;
use crate::equity;
use crate::fmt::balance;
use crate::fmt::reread;
use crate::fmt::settle;
use crate::fmt::sums::{self, all_said, held_of, said_of, size_said, writable};
use crate::lex;
use crate::shown::{self, digits, is_sign};
use crate::syntax::{self, symbol};
use crate::text::{self, CharClass};
use crate::tokens;

verus! {

// ---- finishing ----

/// A text that says something is not blank.
proof fn lemma_not_blank(s: Seq<char>)
    requires
        !lex::is_blank_spec(s),
    ensures
        !submit::blank(s),
{
    let t = text::trim_start_spec(s, CharClass::White);
    text::lemma_run(s, CharClass::White, true);
    reread::lemma_rstrip(t);
    if submit::blank(s) {
        assert(lex::is_blank_spec(t));
        let n = text::run_spec(s, CharClass::White, true);
        assert forall|i: int| 0 <= i < s.len() implies text::is_white(#[trigger] s[i]) by {
            if i >= n {
                assert(t[i - n] == s[i]);
            } else {
                assert(CharClass::White.has(s[i]));
            }
        }
    }
}

/// A transaction is finished only where it adds up to nothing in every
/// commodity, and it is finished as it was entered.
pub proof fn a_finished_transaction_adds_up(s: Sitting, name: Seq<char>, k: nat, t: nat)
    requires
        k <= t,
        sums::all_said(s.draft.amounts(), s.ctx.amounts, false, k),
        sums::size_said(s.draft.amounts(), s.ctx.amounts, false, k) < decimal::limit(),
    ensures
        s.finished() matches Reply::Done(txn) ==> {
            &&& sums::said_of(s.draft.amounts(), s.ctx.amounts, false, name, t) == 0
            &&& s.draft.postings.len() >= 2
            &&& s.draft.date == Some(txn.date)
            &&& txn.description == s.draft.description
            &&& txn.comment == s.draft.comment
            &&& s.ctx.setup.equity_conversion != EquityConversion::On ==> txn.postings
                == s.draft.postings
        },
{
    let amounts = s.draft.amounts();
    if s.finished() is Done {
        sums::an_imbalance_is_what_is_left(amounts, s.ctx.amounts, false, name, k, t);
        assert forall|i: int| 0 <= i < s.draft.postings.len() implies !submit::blank(
            (#[trigger] s.draft.postings[i]).amount,
        ) by {
            assert(amounts[i] == s.draft.postings[i].amount);
            assert(!lex::is_blank_spec(amounts[i]));
            lemma_not_blank(amounts[i]);
        }
        let left = amount::imbalance_spec(amounts, s.ctx.amounts, false)->0;
        assert(left.len() == 0);
    }
}

proof fn lemma_held_none(sums: Seq<(Seq<char>, Num)>, name: Seq<char>, t: nat)
    requires
        forall|i: int| 0 <= i < sums.len() ==> (#[trigger] sums[i]).0 != name,
    ensures
        sums::held_of(sums, name, t) == 0,
    decreases sums.len(),
{
    if sums.len() > 0 {
        let more = sums.skip(1);
        assert forall|i: int| 0 <= i < more.len() implies (#[trigger] more[i]).0 != name by {
            assert(more[i] == sums[i + 1]);
        }
        lemma_held_none(more, name, t);
    }
}

/// The sums that are left are of different commodities.
proof fn lemma_left_distinct(sums: Seq<(Seq<char>, Num)>)
    requires
        balance::distinct(sums),
    ensures
        balance::distinct(amount::nonzero_spec(sums)),
        forall|i: int|
            0 <= i < amount::nonzero_spec(sums).len() ==> exists|j: int|
                0 <= j < sums.len() && sums[j] == #[trigger] amount::nonzero_spec(sums)[i],
    decreases sums.len(),
{
    let left = amount::nonzero_spec(sums);
    if sums.len() > 0 {
        let f = sums.drop_last();
        let n = sums.len() - 1;
        assert forall|i: int, j: int| 0 <= i < j < f.len() implies (#[trigger] f[i]).0 != (
        #[trigger] f[j]).0 by {
            assert(f[i] == sums[i] && f[j] == sums[j]);
        }
        lemma_left_distinct(f);
        let before = amount::nonzero_spec(f);
        assert forall|i: int| 0 <= i < left.len() implies exists|j: int|
            0 <= j < sums.len() && sums[j] == #[trigger] left[i] by {
            if i < before.len() {
                assert(left[i] == before[i]);
                let j = choose|j: int| 0 <= j < f.len() && f[j] == before[i];
                assert(sums[j] == left[i]);
            } else {
                assert(sums[n] == left[i]);
            }
        }
        assert forall|i: int, j: int| 0 <= i < j < left.len() implies (#[trigger] left[i]).0 != (
        #[trigger] left[j]).0 by {
            assert(left[i] == before[i]);
            if j < before.len() {
                assert(left[j] == before[j]);
            } else {
                let m = choose|m: int| 0 <= m < f.len() && f[m] == before[i];
                assert(sums[m].0 != sums[n].0);
            }
        }
    }
}

/// A transaction that adds up to nothing in every commodity is finished, where it
/// has a date and two postings or more.
pub proof fn a_balanced_transaction_is_finished(s: Sitting, k: nat)
    requires
        s.draft.date is Some,
        s.draft.postings.len() >= 2,
        sums::all_said(s.draft.amounts(), s.ctx.amounts, false, k),
        sums::size_said(s.draft.amounts(), s.ctx.amounts, false, k) < decimal::limit(),
        forall|name: Seq<char>| #[trigger]
            sums::said_of(s.draft.amounts(), s.ctx.amounts, false, name, k) == 0,
    ensures
        s.finished() is Done,
{
    let amounts = s.draft.amounts();
    let none = Seq::<char>::empty();
    sums::an_imbalance_is_what_is_left(amounts, s.ctx.amounts, false, none, k, k);
    let left = amount::imbalance_spec(amounts, s.ctx.amounts, false)->0;
    if left.len() > 0 {
        let (name, v) = left[0];
        sums::an_imbalance_is_what_is_left(amounts, s.ctx.amounts, false, name, k, k);
        sums::sums_are_exact(amounts, s.ctx.amounts, false, name, k, k);
        let all = amount::sums_spec(amounts, s.ctx.amounts, false)->0;
        balance::lemma_sums_distinct(amounts, s.ctx.amounts, false);
        lemma_left_distinct(all);
        let more = left.skip(1);
        assert forall|i: int| 0 <= i < more.len() implies (#[trigger] more[i]).0 != name by {
            assert(more[i] == left[i + 1]);
            assert(left[0].0 != left[i + 1].0);
        }
        lemma_held_none(more, name, k);
        assert(sums::held_of(left, name, k) == v.at(k));
        assert(sums::said_of(amounts, s.ctx.amounts, false, name, k) == 0);
        let q = decimal::pow10((k - v.scale) as nat);
        crate::restyle::lemma_pow10_pos((k - v.scale) as nat);
        let m = v.mantissa;
        assert(m != 0 ==> m * q != 0) by (nonlinear_arith)
            requires
                q > 0,
        ;
        assert(left[0].1.mantissa != 0);
    }
}

// ---- the balancing amount ----

/// The amount that is proposed to balance a transaction does: with it the
/// amounts add up to nothing in every commodity.
pub proof fn the_proposed_amount_balances(
    s: Sitting,
    i: usize,
    name: Seq<char>,
    k: nat,
    t: nat,
)
    requires
        k <= t,
        settle::clean(s.ctx.amounts),
        sums::all_said(s.others(i), s.ctx.amounts, false, k),
        sums::size_said(s.others(i), s.ctx.amounts, false, k) < decimal::limit(),
        sums::texts_writable(s.others(i), s.ctx.amounts, false),
        forall|c: Seq<char>| #[trigger] sums::writable(c, s.ctx.amounts) ==> c.len() > 0,
    ensures
        s.balancing(i) matches Some(b) ==> sums::all_said(seq![b], s.ctx.amounts, false, t) ==> sums::said_of(
            s.others(i),
            s.ctx.amounts,
            false,
            name,
            t,
        ) + sums::said_of(seq![b], s.ctx.amounts, false, name, t) == 0,
{
    let others = s.others(i);
    let ctx = s.ctx.amounts;
    if let Some(b) = s.balancing(i) {
        if sums::all_said(seq![b], ctx, false, t) {
            sums::an_imbalance_is_what_is_left(others, ctx, false, name, k, t);
            sums::sums_are_exact(others, ctx, false, name, k, t);
            let all = amount::sums_spec(others, ctx, false)->0;
            let left = amount::imbalance_spec(others, ctx, false)->0;
            sums::lemma_sums_writable(others, ctx, false, k);
            balance::lemma_sums_fit(others, ctx);
            conversions::lemma_part(all, ctx, t, k);
            let (c, v) = left[0];
            assert(left[0].1.representable() && left[0].1.scale <= t && sums::writable(left[0].0, ctx));
            balance::lemma_negated_none(v);
            let w = decimal::negated(v);
            balance::a_legible_amount_is_generated(w, c, ctx, others);
            balance::a_generated_amount_reads_back(w, c, ctx, others);
            let one = seq![b];
            assert(one.drop_last() =~= Seq::empty());
            assert(sums::said_of(one.drop_last(), ctx, false, name, t) == 0);
            assert(!lex::is_blank_spec(one[0]));
            let p = amount::parse_amount_spec(b, ctx)->0;
            sums::lemma_equal_at(p.value, w, t);
            let m = v.mantissa;
            let q = decimal::pow10((t - v.scale) as nat);
            assert((-m) * q == -(m * q)) by (nonlinear_arith);
            assert(left.skip(1) =~= Seq::empty());
            assert(sums::held_of(left.skip(1), name, t) == 0);
        }
    }
}

// ---- pre-filling ----

/// Whether a transaction is the most recent one of a payee.
pub open spec fn newest(ts: Seq<Txn>, payee: Seq<char>, k: int) -> bool {
    &&& 0 <= k < ts.len()
    &&& frecency::payee_of(ts[k]) == payee
    &&& forall|j: int|
        0 <= j < ts.len() && frecency::payee_of(#[trigger] ts[j]) == payee ==> ts[j].date.number()
            <= ts[k].date.number()
}

/// Whether a template is that of a transaction: its accounts and its amounts.
pub open spec fn brings(template: Seq<(Seq<char>, Seq<char>)>, t: Txn) -> bool {
    &&& template.len() == t.postings.len()
    &&& forall|j: int|
        0 <= j < template.len() ==> (#[trigger] template[j]).0 == t.postings[j].account
            && template[j].1 == t.postings[j].amount
}

/// A payee that is entered brings the postings of its most recent transaction
/// along, where nothing has been entered yet.
pub proof fn a_payee_brings_its_most_recent_transaction(
    s: Sitting,
    typed: Seq<char>,
    payee: Seq<char>,
    i: int,
)
    requires
        payee.len() > 0,
        s.draft.postings.len() == 0,
        s.draft.template.len() == 0,
        forall|j: int|
            0 <= j < s.ctx.book.transactions.len() ==> (
            #[trigger] s.ctx.book.transactions[j]).date.is_real(),
        0 <= i < s.ctx.book.transactions.len(),
        frecency::payee_of(s.ctx.book.transactions[i]) == payee,
    ensures
        exists|k: int| #[trigger]
            newest(s.ctx.book.transactions, payee, k) && s.ctx.book.transactions[i].date.number()
                <= s.ctx.book.transactions[k].date.number() && brings(
                s.described(typed, payee).draft.template,
                s.ctx.book.transactions[k],
            ),
        s.described(typed, payee).draft.description == typed,
{
    let ts = s.ctx.book.transactions;
    frecency::the_template_is_the_most_recent(ts, payee);
    let k = crate::add::index::template_spec(ts, payee)->0;
    assert(newest(ts, payee, k));
}

// ---- strictness ----

/// Under strict checking an account that nothing declares is asked about before
/// it is taken, and nothing is entered until then; otherwise nothing is asked.
pub proof fn an_undeclared_account_is_asked_about(s: Sitting, i: usize, account: Seq<char>)
    ensures
        ({
            let known = s.ctx.accounts_visible.contains(account) || s.entered_accounts.contains(
                account,
            );
            &&& s.ctx.strict && !known ==> s.settle_account(i, account, false).1 is Confirm
                && s.settle_account(i, account, false).0 == s
            &&& !s.ctx.strict || known ==> !(s.settle_account(i, account, false).1 is Confirm)
            &&& !(s.settle_account(i, account, true).1 is Confirm)
        }),
{
}

/// The first unknown name is one that neither list holds, and there is one
/// exactly where some name is unknown.
pub proof fn an_unknown_name_is_noticed(
    names: Seq<Seq<char>>,
    a: Seq<Seq<char>>,
    b: Seq<Seq<char>>,
)
    ensures
        match submit::first_unknown(names, a, b) {
            Some(x) => names.contains(x) && !a.contains(x) && !b.contains(x),
            None => forall|i: int|
                0 <= i < names.len() ==> a.contains(#[trigger] names[i]) || b.contains(names[i]),
        },
    decreases names.len(),
{
    if names.len() > 0 {
        let more = names.skip(1);
        an_unknown_name_is_noticed(more, a, b);
        match submit::first_unknown(more, a, b) {
            Some(x) => {
                let i = choose|i: int| 0 <= i < more.len() && more[i] == x;
                assert(names[i + 1] == x);
            },
            None => {
                assert forall|i: int| 0 <= i < names.len() && (a.contains(names[0]) || b.contains(
                    names[0],
                )) implies a.contains(#[trigger] names[i]) || b.contains(names[i]) by {
                    if i > 0 {
                        assert(more[i - 1] == names[i]);
                    }
                }
            },
        }
        assert(names.contains(names[0]));
    }
}

// ---- default commodity ----

/// A bare number is of the default commodity: it is written with it, and reads as
/// so many of it.
pub proof fn a_bare_number_gets_the_default_commodity(
    s: Sitting,
    sign: Seq<char>,
    w: Seq<char>,
    mark: char,
    f: Seq<char>,
    sym: Seq<char>,
)
    requires
        s.ctx.symbol() == Some(sym),
        shown::is_sign(sign),
        digits(w),
        digits(f),
        f.len() <= decimal::max_scale(),
        decimal::fits(text::digits_value(w + f) as int),
        mark == '.' || mark == ',',
        tokens::is_word(sym),
        syntax::symbol(sym),
        !lex::is_rest_start_spec(sym),
        s.ctx.amounts.style_of(sym) is None,
        s.ctx.amounts.mark_for(sym) is None || s.ctx.amounts.mark_for(sym) == Some(mark),
    ensures
        ({
            let m = text::digits_value(w + f) as int;
            let value = Num {
                mantissa: if sign.len() > 0 {
                    -m
                } else {
                    m
                },
                scale: f.len(),
            };
            let (written, commodity) = s.dressed(
                sign + w + seq![mark] + f,
                Seq::empty(),
            );
            &&& commodity == sym
            &&& entered::face_of(written, s.ctx.amounts) matches Some((u, name))
            &&& name == sym
            &&& u.equals(value)
        }),
{
    reveal_strlit(" ");
    let typed = sign + w + seq![mark] + f;
    let ctx = s.ctx.amounts;
    assert forall|i: int| 0 <= i < typed.len() implies !CharClass::Is('@').has(#[trigger] typed[i])
        && !CharClass::Is('=').has(typed[i]) by {
        if i < sign.len() {
            assert(typed[i] == '-');
        } else if i < sign.len() + w.len() {
            assert(typed[i] == w[i - sign.len()]);
            assert(text::is_digit(w[i - sign.len()]));
        } else if i > sign.len() + w.len() {
            assert(typed[i] == f[i - sign.len() - w.len() - 1]);
            assert(text::is_digit(f[i - sign.len() - w.len() - 1]));
        }
    }
    assert(!text::any_spec(typed, CharClass::Is('@')));
    assert(!text::any_spec(typed, CharClass::Is('=')));
    syntax::an_amount_reads_as_it_says(sign, w, mark, f, sym, ctx);
    let field = typed + " "@ + sym;
    assert(crate::add::ui::field::attached_commodity(typed, sym, ctx) == field);
    entered::an_entered_amount_keeps_its_value(field, ctx);
}

// ---- conversions ----

proof fn lemma_picked(ps: Seq<NewPost>, idxs: Seq<usize>, j: int)
    requires
        conversions::lists(idxs, j),
        0 <= j < ps.len(),
    ensures
        submit::picked_posts(ps, idxs).contains(ps[j]),
    decreases idxs.len(),
{
    let out = submit::picked_posts(ps, idxs);
    let i = choose|i: int| 0 <= i < idxs.len() && #[trigger] idxs[i] == j;
    let f = idxs.drop_last();
    let n = idxs.len() - 1;
    let before = submit::picked_posts(ps, f);
    if i == n {
        assert(idxs.last() == j);
        assert(out[out.len() - 1] == ps[j]);
    } else {
        assert(f[i] == j);
        lemma_picked(ps, f, j);
        let k = choose|k: int| 0 <= k < before.len() && before[k] == ps[j];
        assert(out[k] == ps[j]);
    }
}

proof fn lemma_separated(sections: Seq<Seq<NewPost>>, g: int, p: NewPost)
    requires
        0 <= g < sections.len(),
        sections[g].contains(p),
    ensures
        submit::separated(sections).contains(p),
    decreases sections.len(),
{
    let out = submit::separated(sections);
    let i = choose|i: int| 0 <= i < sections[g].len() && sections[g][i] == p;
    if sections.len() == 1 {
        assert(out[i] == p);
    } else {
        let f = sections.drop_last();
        let before = submit::separated(f);
        if g == sections.len() - 1 {
            assert(out[before.len() + 1 + i] == p);
        } else {
            assert(f[g] == sections[g]);
            lemma_separated(f, g, p);
            let k = choose|k: int| 0 <= k < before.len() && before[k] == p;
            assert(out[k] == p);
        }
    }
}

/// Conversion postings are added to what was entered: every posting of the draft
/// is a posting of the finished transaction.
pub proof fn conversions_drop_no_posting(s: Sitting, j: int)
    requires
        s.draft.postings.len() <= usize::MAX,
        0 <= j < s.draft.postings.len(),
    ensures
        s.with_conversions().contains(s.draft.postings[j]),
{
    let ps = s.draft.postings;
    let amounts = s.draft.amounts();
    assert(amounts.len() == ps.len());
    let out = s.with_conversions();
    let account = s.ctx.setup.equity_conversion_account;
    if s.ctx.setup.equity_conversion != EquityConversion::On {
        assert(out[j] == ps[j]);
    } else {
        match equity::layout_spec(amounts, s.ctx.amounts) {
            None => {
                assert(out[j] == ps[j]);
            },
            Some(l) => {
                conversions::every_posting_is_laid_out_once(amounts, s.ctx.amounts, j);
                let sections = submit::sections_of(ps, l, account);
                if conversions::lists(l.unassigned, j) {
                    lemma_picked(ps, l.unassigned, j);
                    let trailing = submit::picked_posts(ps, l.unassigned);
                    assert(trailing.len() > 0);
                    assert(sections[sections.len() - 1] == trailing);
                    lemma_separated(sections, sections.len() - 1, ps[j]);
                } else {
                    let g = choose|g: int|
                        0 <= g < l.groups.len() && conversions::lists(
                            (#[trigger] l.groups[g]).postings,
                            j,
                        );
                    lemma_picked(ps, l.groups[g].postings, j);
                    let mine = submit::picked_posts(ps, l.groups[g].postings);
                    let section = submit::section_of(ps, l.groups[g], account);
                    let k = choose|k: int| 0 <= k < mine.len() && mine[k] == ps[j];
                    assert(section[k] == ps[j]);
                    assert(sections[g] == section);
                    lemma_separated(sections, g, ps[j]);
                }
            },
        }
    }
}

// ---- the log ----

proof fn lemma_rows(blocks: Seq<Seq<Seq<char>>>, n: int)
    requires
        0 <= n <= blocks.len(),
    ensures
        frame::block_rows(blocks.skip(blocks.len() - n)).len() == frame::height_of(blocks, n),
    decreases n,
{
    if n == 0 {
        assert(blocks.skip(blocks.len() as int) =~= Seq::empty());
    } else {
        lemma_rows(blocks, n - 1);
        let some = blocks.skip(blocks.len() - n);
        let fewer = blocks.skip(blocks.len() - n + 1);
        assert(some =~= seq![blocks[blocks.len() - n]] + fewer);
        lemma_rows_front(blocks[blocks.len() - n], fewer);
    }
}

proof fn lemma_rows_front(b: Seq<Seq<char>>, more: Seq<Seq<Seq<char>>>)
    ensures
        frame::block_rows(seq![b] + more).len() == b.len() + frame::block_rows(more).len(),
    decreases more.len(),
{
    let all = seq![b] + more;
    if more.len() == 0 {
        assert(all.drop_last() =~= Seq::empty());
        assert(all.last() == b);
        assert(frame::block_rows(all.drop_last()).len() == 0);
    } else {
        lemma_rows_front(b, more.drop_last());
        assert(all.drop_last() =~= seq![b] + more.drop_last());
        assert(all.last() == more.last());
    }
}

proof fn lemma_fitting(blocks: Seq<Seq<Seq<char>>>, budget: int, n: int)
    requires
        0 <= n <= blocks.len(),
        frame::height_of(blocks, n) <= budget,
    ensures
        ({
            let k = frame::fitting(blocks, budget, n);
            n <= k <= blocks.len() && frame::height_of(blocks, k) <= budget && (k < blocks.len()
                ==> frame::height_of(blocks, k + 1) > budget)
        }),
    decreases blocks.len() - n,
{
    if n < blocks.len() && frame::height_of(blocks, n + 1) <= budget {
        lemma_fitting(blocks, budget, n + 1);
    }
}

/// The log of completed transactions takes no more rows than there are, and
/// where all of it fits all of it is shown.
pub proof fn the_log_fits(blocks: Seq<Seq<Seq<char>>>, budget: int)
    requires
        budget >= 0,
        forall|i: int| 0 <= i < blocks.len() ==> (#[trigger] blocks[i]).len() > 0,
    ensures
        frame::log_spec(blocks, budget).len() <= budget,
        budget > 0 && frame::height_of(blocks, blocks.len() as int) <= budget ==> frame::log_spec(
            blocks,
            budget,
        ) == frame::block_rows(blocks),
{
    if budget > 0 && blocks.len() > 0 {
        lemma_fitting(blocks, budget, 0);
        let k = frame::fitting(blocks, budget, 0);
        let n = frame::shown(blocks, budget);
        lemma_rows(blocks, n);
        if n == k - 1 {
            assert(blocks[blocks.len() - k].len() > 0);
        }
        if frame::height_of(blocks, blocks.len() as int) <= budget {
            lemma_taller(blocks, k, blocks.len() as int);
            assert(k == blocks.len());
            assert(blocks.skip(0) =~= blocks);
            let none = Seq::<Seq<frame::Piece>>::empty();
            assert(none + frame::block_rows(blocks) =~= frame::block_rows(blocks));
        }
    } else if blocks.len() == 0 {
        assert(frame::log_spec(blocks, budget) =~= frame::block_rows(blocks));
    }
}

proof fn lemma_taller(blocks: Seq<Seq<Seq<char>>>, a: int, b: int)
    requires
        0 <= a <= b <= blocks.len(),
    ensures
        frame::height_of(blocks, a) <= frame::height_of(blocks, b),
        a < b ==> frame::height_of(blocks, a + 1) <= frame::height_of(blocks, b),
    decreases b - a,
{
    if a < b {
        lemma_taller(blocks, a + 1, b);
    }
}

/// Under strict checking a payee that nothing declares is asked about before its
/// description is taken; otherwise nothing is asked. What is taken is the
/// description as it was typed, without its comment.
pub proof fn an_undeclared_payee_is_asked_about(s: Sitting)
    ensures
        ({
            let typed = crate::add::ui::field::field_parts(s.draft.buffer).0;
            let payee = lex::split_payee_note_spec(typed).0;
            let known = payee.len() == 0 || s.ctx.payees_visible.contains(payee);
            &&& s.ctx.strict && !known ==> s.submit_description(false).1 is Confirm
                && s.submit_description(false).0.draft.postings == s.draft.postings
            &&& !s.ctx.strict || known ==> !(s.submit_description(false).1 is Confirm)
            &&& !(s.submit_description(true).1 is Confirm)
        }),
{
}

/// Under strict checking an amount in a commodity that nothing declares is asked
/// about and not taken; otherwise it is never asked about.
pub proof fn an_undeclared_commodity_is_asked_about(s: Sitting, i: usize, typed: Seq<char>)
    ensures
        amount::parse_amount_spec(typed, s.ctx.amounts) matches Some(p) ==> {
            let (written, commodity) = s.dressed(typed, p.commodity);
            let names = Sitting::commodities_named(written, commodity);
            let all_known = forall|k: int|
                0 <= k < names.len() ==> s.ctx.commodities_visible.contains(#[trigger] names[k]);
            &&& s.ctx.strict && !all_known ==> s.settle_amount(i, typed, false).1 is Confirm
                && s.settle_amount(i, typed, false).0 == s
            &&& !s.ctx.strict || all_known ==> !(s.settle_amount(i, typed, false).1 is Confirm)
        },
        amount::parse_amount_spec(typed, s.ctx.amounts) is None ==> s.settle_amount(
            i,
            typed,
            false,
        ).1 is Invalid && s.settle_amount(i, typed, false).0 == s,
{
    if let Some(p) = amount::parse_amount_spec(typed, s.ctx.amounts) {
        let (written, commodity) = s.dressed(typed, p.commodity);
        let names = Sitting::commodities_named(written, commodity);
        let none = Seq::<Seq<char>>::empty();
        an_unknown_name_is_noticed(names, s.ctx.commodities_visible, none);
        if s.ctx.strict {
            match submit::first_unknown(names, s.ctx.commodities_visible, none) {
                Some(x) => {
                    let k = choose|k: int| 0 <= k < names.len() && names[k] == x;
                    assert(!s.ctx.commodities_visible.contains(names[k]));
                },
                None => {
                    assert forall|k: int| 0 <= k < names.len() implies
                        s.ctx.commodities_visible.contains(#[trigger] names[k]) by {
                        assert(s.ctx.commodities_visible.contains(names[k]) || none.contains(
                            names[k],
                        ));
                    }
                },
            }
        }
    }
}

/// The proposed amount of a posting is that of the template, where its account is
/// kept, or the balancing one: on the last posting of the template the balancing
/// one first, on the others the template's.
pub proof fn a_proposed_amount_is_the_templates_or_balances(s: Sitting, i: usize)
    requires
        i < s.draft.postings.len(),
        i < s.draft.template.len(),
        s.draft.template.len() <= usize::MAX,
        s.draft.template[i as int].0 == s.draft.postings[i as int].account,
        s.draft.template[i as int].1.len() > 0,
    ensures
        i + 1 < s.draft.template.len() ==> s.amount_prefill(i) == Some(
            s.draft.template[i as int].1,
        ),
        i + 1 == s.draft.template.len() ==> s.amount_prefill(i) == (if s.balancing(i) is Some {
            s.balancing(i)
        } else {
            Some(s.draft.template[i as int].1)
        }),
{
}

// ---- the whole draft ----

proof fn lemma_said_concat(
    a: Seq<Seq<char>>,
    b: Seq<Seq<char>>,
    ctx: crate::amount::Ctx,
    name: Seq<char>,
    t: nat,
)
    ensures
        sums::said_of(a + b, ctx, false, name, t) == sums::said_of(a, ctx, false, name, t) + sums::said_of(
            b,
            ctx,
            false,
            name,
            t,
        ),
    decreases b.len(),
{
    if b.len() == 0 {
        assert(a + b =~= a);
    } else {
        lemma_said_concat(a, b.drop_last(), ctx, name, t);
        assert((a + b).drop_last() =~= a + b.drop_last());
        assert((a + b).last() == b.last());
    }
}

/// With the proposed amount in its place the whole draft adds up to nothing in
/// every commodity.
pub proof fn a_draft_with_the_proposed_amount_adds_up(
    s: Sitting,
    i: usize,
    b: Seq<char>,
    name: Seq<char>,
    k: nat,
    t: nat,
)
    requires
        k <= t,
        i < s.draft.postings.len(),
        s.balancing(i) == Some(b),
        settle::clean(s.ctx.amounts),
        !sums::writable(Seq::empty(), s.ctx.amounts),
        sums::all_said(s.draft.amounts().remove(i as int), s.ctx.amounts, false, k),
        sums::size_said(s.draft.amounts().remove(i as int), s.ctx.amounts, false, k) < decimal::limit(),
        sums::texts_writable(s.draft.amounts().remove(i as int), s.ctx.amounts, false),
        sums::all_said(seq![b], s.ctx.amounts, false, t),
    ensures
        sums::said_of(s.draft.amounts().update(i as int, b), s.ctx.amounts, false, name, t) == 0,
{
    let all = s.draft.amounts();
    let n = i as int;
    let ctx = s.ctx.amounts;
    let front = all.take(n);
    let back = all.skip(n + 1);
    assert(s.others(i) == all.remove(n));
    assert(all.remove(n) =~= front + back);
    assert(all.update(n, b) =~= front + seq![b] + back);
    lemma_said_concat(front, back, ctx, name, t);
    lemma_said_concat(front + seq![b], back, ctx, name, t);
    lemma_said_concat(front, seq![b], ctx, name, t);
    the_proposed_amount_balances(s, i, name, k, t);
}

/// An empty line at an account ends the transaction with the postings before it:
/// only such postings are dropped as have no account and nothing behind them.
pub proof fn finishing_drops_only_empty_postings(ps: Seq<NewPost>)
    ensures
        submit::trimmed(ps).is_prefix_of(ps),
        forall|i: int|
            submit::trimmed(ps).len() <= i < ps.len() ==> submit::blank(
                (#[trigger] ps[i]).account,
            ),
        submit::trimmed(ps).len() > 0 ==> !submit::blank(submit::trimmed(ps).last().account),
    decreases ps.len(),
{
    let out = submit::trimmed(ps);
    if ps.len() > 0 && submit::blank(ps.last().account) {
        let f = ps.drop_last();
        finishing_drops_only_empty_postings(f);
        assert(out =~= f.take(out.len() as int));
        assert(out =~= ps.take(out.len() as int));
        assert forall|i: int| out.len() <= i < ps.len() implies submit::blank(
            (#[trigger] ps[i]).account,
        ) by {
            if i < f.len() {
                assert(f[i] == ps[i]);
            }
        }
    } else {
        assert(ps.take(ps.len() as int) =~= ps);
    }
}

// ---- the preview ----

proof fn lemma_shown(ps: Seq<NewPost>)
    requires
        forall|i: int| 0 <= i < ps.len() ==> !submit::blank((#[trigger] ps[i]).account),
    ensures
        preview::shown_lines(ps) == crate::add::write::post_lines(ps, Rewrites::none()),
    decreases ps.len(),
{
    if ps.len() > 0 {
        let f = ps.drop_last();
        assert forall|i: int| 0 <= i < f.len() implies !submit::blank(
            (#[trigger] f[i]).account,
        ) by {
            assert(f[i] == ps[i]);
        }
        lemma_shown(f);
        assert(!submit::blank(ps[ps.len() - 1].account));
    }
}

/// The preview shows the transaction as it is shown once it is finished: the
/// same header, the same postings, in the same columns.
pub proof fn the_preview_is_what_is_finished(s: Sitting, date: crate::date::Day)
    requires
        s.draft.stashed().date == Some(date),
        forall|i: int|
            0 <= i < s.draft.stashed().postings.len() ==> !submit::blank(
                (#[trigger] s.draft.stashed().postings[i]).account,
            ),
    ensures
        s.preview() == plain::done_lines(
            NewTxn {
                date,
                description: s.draft.stashed().description,
                comment: s.draft.stashed().comment,
                postings: s.draft.stashed().postings,
            },
            s.ctx.acc_w,
            s.ctx.num_w,
        ),
{
    lemma_shown(s.draft.stashed().postings);
}

} // verus!
