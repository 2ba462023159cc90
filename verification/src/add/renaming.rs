//! What `apply account` and `alias` make of account names.

use vstd::prelude::*;
use crate::add::scope::{self, Prefix, Rewrite, Rewrites, Rule};
use crate::add::write::{NewPost, NewTxn};
use crate::text::{self, CharClass};

verus! {

/// An `alias` rewrites the account that it names and the accounts below it, and
/// no other: not one whose name only starts with the same letters.
pub proof fn an_alias_rewrites_an_account_and_those_below(
    old: Seq<char>,
    new: Seq<char>,
    rest: Seq<char>,
    name: Seq<char>,
)
    ensures
        (Rule::Exact { old, new }).apply(old) == new,
        (Rule::Exact { old, new }).apply(old + seq![':'] + rest) == new + seq![':'] + rest,
        rest.len() > 0 && rest[0] != ':' ==> (Rule::Exact { old, new }).apply(old + rest) == old
            + rest,
        !old.is_prefix_of(name) ==> (Rule::Exact { old, new }).apply(name) == name,
{
    let below = old + seq![':'] + rest;
    assert(below.len() > old.len());
    assert(below.take(old.len() as int) =~= old);
    assert(below.skip(old.len() as int) =~= seq![':'] + rest);
    assert(new + (seq![':'] + rest) =~= new + seq![':'] + rest);
    let more = old + rest;
    assert(more.take(old.len() as int) =~= old);
    assert(more.skip(old.len() as int) =~= rest);
    if name == old {
        assert(old.take(old.len() as int) =~= old);
    }
}

/// The alias that a directive declares: what stands before its first `=` is
/// rewritten as what stands behind it, without the space around either.
pub proof fn an_alias_is_declared_by_its_equals_sign(old: Seq<char>, new: Seq<char>)
    requires
        old.len() > 0,
        !old.contains('='),
        old[0] != '/',
        !text::is_white(old[0]),
        new.len() > 0,
        !text::is_white(new.last()),
    ensures
        scope::rule_spec(old + seq!['='] + new) == Some(
            Rule::Exact {
                old: text::trim_spec(old, CharClass::White),
                new: text::trim_spec(new, CharClass::White),
            },
        ),
{
    let all = old + seq!['='] + new;
    let k = old.len() as int;
    let white = CharClass::White;
    let eq = CharClass::Is('=');
    assert(all[0] == old[0]);
    text::lemma_run_is(all, white, true, 0);
    assert(all.skip(0) =~= all);
    assert(all[all.len() - 0 - 1] == new.last());
    text::lemma_run_back_is(all, white, true, 0);
    assert(all.take(all.len() as int) =~= all);
    assert forall|i: int| 0 <= i < k implies eq.has(#[trigger] all[i]) == false by {
        assert(all[i] == old[i]);
        assert(old.contains(old[i]));
    }
    assert(all[k] == '=');
    text::lemma_run_is(all, eq, false, k);
    assert(all.take(k) =~= old);
    assert(all.skip(k + 1) =~= new);
}

/// Inside `apply account` a name means the account below the one that is applied.
/// One inside another applies first.
pub proof fn applied_accounts_nest(apply: Seq<Prefix>, p: Prefix, name: Seq<char>)
    ensures
        (Rewrites { apply: apply.push(p), aliases: Seq::empty() }).resolve(name) == (Rewrites {
            apply,
            aliases: Seq::empty(),
        }).resolve(p.text + seq![':'] + name),
        (Rewrites { apply: Seq::empty(), aliases: Seq::empty() }).resolve(name) == name,
{
    let now = apply.push(p);
    let sep = seq![':'];
    let texts = now.map_values(|p: Prefix| p.text);
    let before = apply.map_values(|p: Prefix| p.text);
    assert(texts.drop_last() =~= before);
    assert(texts.last() == p.text);
    if apply.len() == 0 {
        assert(scope::joined(now) == p.text);
    } else {
        assert(scope::joined(now) == scope::joined(apply) + sep + p.text);
        assert(scope::joined(apply) + sep + p.text + sep + name =~= scope::joined(apply) + sep + (
        p.text + sep + name));
    }
}

/// Of several aliases the last one declared is applied first, and the others to
/// what it gives; all of them to the name with what is applied in front of it.
pub proof fn the_last_alias_is_applied_first(
    apply: Seq<Prefix>,
    aliases: Seq<Rewrite>,
    last: Rewrite,
    name: Seq<char>,
)
    ensures
        (Rewrites { apply, aliases: aliases.push(last) }).resolve(name) == (Rewrites {
            apply: Seq::empty(),
            aliases,
        }).resolve(
            last.rule.apply((Rewrites { apply, aliases: Seq::empty() }).resolve(name)),
        ),
{
    let all = aliases.push(last);
    assert(all.drop_last() =~= aliases);
    assert(all.last() == last);
}

// ---- writing ----

/// Inside `apply account` the accounts below the one that is applied are written
/// as what follows it, and no other account can be written.
pub proof fn an_applied_account_is_left_out(apply: Seq<Prefix>, target: Seq<char>, rest: Seq<char>)
    requires
        apply.len() > 0,
    ensures
        ({
            let scope = Rewrites { apply, aliases: Seq::empty() };
            let p = scope::joined(apply) + seq![':'];
            &&& scope.spell(p + rest) == Some(rest)
            &&& !p.is_prefix_of(target) ==> scope.spell(target) is None
        }),
{
    let scope = Rewrites { apply, aliases: Seq::empty() };
    let p = scope::joined(apply) + seq![':'];
    let t = p + rest;
    assert(p.is_prefix_of(t)) by {
        assert(t.take(p.len() as int) =~= p);
    }
    assert(t.skip(p.len() as int) =~= rest);
    let none = Seq::<Seq<char>>::empty();
    assert(scope::inverted(scope.aliases, t) =~= none);
    let from = scope.derived(t);
    assert(from =~= seq![rest]);
    assert(from.drop_last() =~= none);
    let start = seq![t];
    assert(start.drop_last() =~= none);
    assert(scope.widened(start, none) == start);
    let one = scope.widened(start, start);
    assert(one == scope::with_new(start, from));
    assert(scope::with_new(start, none) == start);
    assert(t.len() > rest.len());
    assert(!start.contains(rest)) by {
        if start.contains(rest) {
            assert(start[0] == rest);
        }
    }
    assert(one =~= seq![t, rest]);
    let all = scope.widened(one, one);
    lemma_widened_front(scope, one, one);
    assert(all[0] == one[0] && all[1] == one[1]) by {
        assert(one =~= all.take(2));
        assert(all.take(2)[0] == all[0] && all.take(2)[1] == all[1]);
    }
    assert(scope.resolve(t) == p + t);
    assert(scope.resolve(t).len() != t.len());
    assert(all.skip(1)[0] == rest);
    assert(scope.resolve(rest) == t);
    assert(scope.verified(all.skip(1), t) == Some(rest));
    if !p.is_prefix_of(target) {
        lemma_none_verified(scope, p, scope.candidates(target), target);
    }
}

proof fn lemma_none_verified(
    scope: Rewrites,
    p: Seq<char>,
    candidates: Seq<Seq<char>>,
    target: Seq<char>,
)
    requires
        scope.apply.len() > 0,
        scope.aliases.len() == 0,
        p == scope::joined(scope.apply) + seq![':'],
        !p.is_prefix_of(target),
    ensures
        scope.verified(candidates, target) is None,
    decreases candidates.len(),
{
    if candidates.len() > 0 {
        let c = candidates[0];
        assert(scope.resolve(c) == p + c);
        if scope.resolve(c) == target {
            assert(target.take(p.len() as int) =~= p);
        }
        lemma_none_verified(scope, p, candidates.skip(1), target);
    }
}

proof fn lemma_with_new_front(seen: Seq<Seq<char>>, more: Seq<Seq<char>>)
    ensures
        seen.is_prefix_of(scope::with_new(seen, more)),
    decreases more.len(),
{
    let all = scope::with_new(seen, more);
    if more.len() == 0 {
        assert(all.take(seen.len() as int) =~= seen);
    } else {
        lemma_with_new_front(seen, more.drop_last());
        let before = scope::with_new(seen, more.drop_last());
        assert(seen =~= before.take(seen.len() as int));
        assert(seen =~= all.take(seen.len() as int));
    }
}

proof fn lemma_widened_front(scope: Rewrites, seen: Seq<Seq<char>>, from: Seq<Seq<char>>)
    ensures
        seen.is_prefix_of(scope.widened(seen, from)),
    decreases from.len(),
{
    let all = scope.widened(seen, from);
    if from.len() == 0 {
        assert(all.take(seen.len() as int) =~= seen);
    } else {
        lemma_widened_front(scope, seen, from.drop_last());
        let before = scope.widened(seen, from.drop_last());
        lemma_with_new_front(before, scope.derived(from.last()));
        assert(seen =~= before.take(seen.len() as int));
        assert(before =~= all.take(before.len() as int));
        assert(seen =~= all.take(seen.len() as int));
    }
}

proof fn lemma_unspellable(ps: Seq<NewPost>, scope: Rewrites)
    ensures
        forall|a: Seq<char>| #[trigger]
            crate::add::write::unspellable(ps, scope).contains(a) <==> exists|i: int|
                0 <= i < ps.len() && (#[trigger] ps[i]).account == a && scope.spell(a) is None,
        (forall|i: int| 0 <= i < ps.len() ==> scope.spell((#[trigger] ps[i]).account) is Some) ==> {
            let out = crate::add::write::post_lines(ps, scope);
            &&& out.len() == ps.len()
            &&& forall|i: int|
                0 <= i < ps.len() ==> #[trigger] out[i] == crate::add::write::post_line(
                    scope.spell(ps[i].account)->0,
                    ps[i],
                )
        },
    decreases ps.len(),
{
    let u = crate::add::write::unspellable(ps, scope);
    let out = crate::add::write::post_lines(ps, scope);
    if ps.len() > 0 {
        let f = ps.drop_last();
        let n = ps.len() - 1;
        let p = ps[n];
        lemma_unspellable(f, scope);
        let uf = crate::add::write::unspellable(f, scope);
        assert forall|a: Seq<char>| #[trigger] u.contains(a) <==> exists|i: int|
            0 <= i < ps.len() && (#[trigger] ps[i]).account == a && scope.spell(a) is None by {
            assert(uf.contains(a) <==> exists|i: int|
                0 <= i < f.len() && (#[trigger] f[i]).account == a && scope.spell(a) is None);
            if u.contains(a) {
                let k = choose|k: int| 0 <= k < u.len() && u[k] == a;
                if k < uf.len() {
                    assert(uf[k] == a);
                    assert(uf.contains(a));
                    let i = choose|i: int|
                        0 <= i < f.len() && (#[trigger] f[i]).account == a && scope.spell(
                            a,
                        ) is None;
                    assert(ps[i] == f[i]);
                } else {
                    assert(ps[n].account == a);
                }
            }
            if exists|i: int|
                0 <= i < ps.len() && (#[trigger] ps[i]).account == a && scope.spell(a) is None {
                let i = choose|i: int|
                    0 <= i < ps.len() && (#[trigger] ps[i]).account == a && scope.spell(a) is None;
                if i < n {
                    assert(f[i] == ps[i]);
                    assert(uf.contains(a));
                    let k = choose|k: int| 0 <= k < uf.len() && uf[k] == a;
                    assert(u[k] == a);
                } else if !uf.contains(a) {
                    assert(u[u.len() - 1] == a);
                } else {
                    assert(u == uf);
                }
            }
        }
        if forall|i: int| 0 <= i < ps.len() ==> scope.spell((#[trigger] ps[i]).account) is Some {
            assert forall|i: int| 0 <= i < f.len() implies scope.spell(
                (#[trigger] f[i]).account,
            ) is Some by {
                assert(f[i] == ps[i]);
            }
            assert(scope.spell(ps[n].account) is Some);
            let before = crate::add::write::post_lines(f, scope);
            assert forall|i: int| 0 <= i < ps.len() implies #[trigger] out[i]
                == crate::add::write::post_line(scope.spell(ps[i].account)->0, ps[i]) by {
                if i < n {
                    assert(out[i] == before[i]);
                    assert(f[i] == ps[i]);
                }
            }
        }
    } else {
        assert forall|a: Seq<char>| !(#[trigger] u.contains(a)) by {}
    }
}

/// A transaction is written whole, every posting with its account spelled so that
/// it reads back as the account that was meant; or it is refused, and exactly where
/// some account has no such spelling.
pub proof fn a_transaction_is_written_whole_or_refused(t: NewTxn, scope: Rewrites)
    ensures
        match t.raw_lines(scope) {
            Ok(raw) => {
                &&& raw.len() == t.postings.len() + 1
                &&& raw[0] == t.header()
                &&& forall|i: int|
                    0 <= i < t.postings.len() ==> (scope.spell((#[trigger] t.postings[i]).account)
                        matches Some(spelled) && scope.resolve(spelled) == t.postings[i].account
                        && raw[i + 1] == crate::add::write::post_line(spelled, t.postings[i]))
            },
            Err(names) => {
                &&& exists|i: int|
                    0 <= i < t.postings.len() && scope.spell(
                        (#[trigger] t.postings[i]).account,
                    ) is None
                &&& forall|i: int|
                    0 <= i < t.postings.len() && scope.spell(
                        (#[trigger] t.postings[i]).account,
                    ) is None ==> names.contains(t.postings[i].account)
            },
        },
{
    let ps = t.postings;
    let u = crate::add::write::unspellable(ps, scope);
    lemma_unspellable(ps, scope);
    if u.len() == 0 {
        assert forall|i: int| 0 <= i < ps.len() implies scope.spell(
            (#[trigger] ps[i]).account,
        ) is Some by {
            if scope.spell(ps[i].account) is None {
                assert(u.contains(ps[i].account));
            }
        }
        let out = crate::add::write::post_lines(ps, scope);
        let raw = seq![t.header()] + out;
        assert forall|i: int| 0 <= i < ps.len() implies (scope.spell((#[trigger] ps[i]).account)
            matches Some(spelled) && scope.resolve(spelled) == ps[i].account && raw[i + 1]
            == crate::add::write::post_line(spelled, ps[i])) by {
            scope::spelling_is_read_back(scope, ps[i].account);
            assert(raw[i + 1] == out[i]);
        }
    } else {
        assert(u.contains(u[0]));
    }
}

} // verus!
