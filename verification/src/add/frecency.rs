//! What the index remembers of a journal.

use vstd::prelude::*;
use crate::add::index::{self, Seen, Tally};
use crate::add::parser::{PostingRead, Txn};
use crate::add::scope;
use crate::calendar;
use crate::date::Day;
use crate::lex;
use crate::text;

verus! {

// ---- the template ----

/// The payee of a transaction.
pub open spec fn payee_of(t: Txn) -> Seq<char> {
    lex::split_payee_note_spec(t.description).0
}

/// The template of a payee is the most recent of its transactions: none of them
/// is dated later, and of those of its day it is the last in the journal. There
/// is one for every payee that occurs.
pub proof fn the_template_is_the_most_recent(ts: Seq<Txn>, payee: Seq<char>)
    requires
        payee.len() > 0,
        forall|i: int| 0 <= i < ts.len() ==> (#[trigger] ts[i]).date.is_real(),
    ensures
        match index::template_spec(ts, payee) {
            None => forall|i: int| 0 <= i < ts.len() ==> payee_of(#[trigger] ts[i]) != payee,
            Some(k) => {
                &&& 0 <= k < ts.len()
                &&& payee_of(ts[k]) == payee
                &&& forall|i: int|
                    0 <= i < ts.len() && payee_of(#[trigger] ts[i]) == payee
                        ==> ts[i].date.number() <= ts[k].date.number()
                &&& forall|i: int|
                    k < i < ts.len() && payee_of(#[trigger] ts[i]) == payee
                        ==> ts[i].date.number() < ts[k].date.number()
            },
        },
    decreases ts.len(),
{
    if ts.len() > 0 {
        let f = ts.drop_last();
        assert forall|i: int| 0 <= i < f.len() implies (#[trigger] f[i]).date.is_real() by {
            assert(f[i] == ts[i]);
        }
        the_template_is_the_most_recent(f, payee);
        let last = ts[ts.len() - 1];
        assert(last.date.is_real());
        match index::template_spec(f, payee) {
            None => {
                assert forall|i: int| 0 <= i < ts.len() - 1 implies payee_of(#[trigger] ts[i])
                    != payee by {
                    assert(f[i] == ts[i]);
                }
            },
            Some(k) => {
                assert(f[k] == ts[k]);
                calendar::days_are_in_order(ts[k].date, last.date);
                assert forall|i: int|
                    0 <= i < ts.len() - 1 && payee_of(#[trigger] ts[i]) == payee implies
                    ts[i].date.number() <= ts[k].date.number() && (k < i ==> ts[i].date.number()
                    < ts[k].date.number()) by {
                    assert(f[i] == ts[i]);
                }
            },
        }
    }
}

/// The payee is what stands before the first `|` of a description, without the
/// space around it, and the note what stands behind; a description without one
/// is both.
pub proof fn a_description_is_a_payee_and_a_note(p: Seq<char>, n: Seq<char>)
    requires
        !p.contains('|'),
    ensures
        lex::split_payee_note_spec(p + seq!['|'] + n) == (
            text::trim_spec(p, text::CharClass::White),
            text::trim_spec(n, text::CharClass::White),
        ),
        lex::split_payee_note_spec(p) == (
            text::trim_spec(p, text::CharClass::White),
            text::trim_spec(p, text::CharClass::White),
        ),
{
    let d = p + seq!['|'] + n;
    let bar = text::CharClass::Is('|');
    let k = p.len() as int;
    assert forall|i: int| 0 <= i < k implies bar.has(#[trigger] p[i]) == false by {
        assert(p.contains(p[i]));
    }
    assert forall|i: int| 0 <= i < k implies bar.has(#[trigger] d[i]) == false by {
        assert(d[i] == p[i]);
    }
    assert(d[k] == '|');
    text::lemma_run_is(d, bar, false, k);
    text::lemma_run_is(p, bar, false, k);
    assert(d.take(k) =~= p);
    assert(d.skip(k + 1) =~= n);
}

// ---- ranking ----

/// Whether an entry may stand before another: its score is no lower, and where
/// they are level it is no older.
pub open spec fn ranks(a: Seen, b: Seen) -> bool {
    a.score > b.score || a.score == b.score && a.last_date.number() >= b.last_date.number()
}

pub open spec fn all_real(es: Seq<Seen>) -> bool {
    forall|i: int| 0 <= i < es.len() ==> (#[trigger] es[i]).last_date.is_real()
}

proof fn lemma_rank_of(ranked: Seq<Seen>, e: Seen)
    ensures
        0 <= index::rank_of(ranked, e) <= ranked.len(),
        forall|i: int|
            0 <= i < index::rank_of(ranked, e) ==> !index::ahead(e, #[trigger] ranked[i]),
        index::rank_of(ranked, e) < ranked.len() ==> index::ahead(
            e,
            ranked[index::rank_of(ranked, e)],
        ),
    decreases ranked.len(),
{
    if ranked.len() > 0 && !index::ahead(e, ranked[0]) {
        let more = ranked.skip(1);
        lemma_rank_of(more, e);
        let n = index::rank_of(ranked, e);
        assert forall|i: int| 0 <= i < n implies !index::ahead(e, #[trigger] ranked[i]) by {
            if i > 0 {
                assert(more[i - 1] == ranked[i]);
            }
        }
        if n < ranked.len() {
            assert(more[n - 1] == ranked[n]);
        }
    }
}

/// A ranking goes down: by score, and between equal scores by how recent an
/// entry is. It holds every entry of its group, and no other.
pub proof fn a_ranking_goes_down(es: Seq<Seen>, group: Seq<char>)
    requires
        all_real(es),
    ensures
        ({
            let r = index::ranking(es, group);
            &&& forall|i: int, j: int|
                0 <= i < j < r.len() ==> ranks(#[trigger] r[i], #[trigger] r[j])
            &&& forall|e: Seen| #[trigger] r.contains(e) <==> es.contains(e) && e.group == group
            &&& all_real(r)
        }),
    decreases es.len(),
{
    let r = index::ranking(es, group);
    if es.len() > 0 {
        let f = es.drop_last();
        let n = es.len() - 1;
        let e = es[n];
        assert forall|i: int| 0 <= i < f.len() implies (#[trigger] f[i]).last_date.is_real() by {
            assert(f[i] == es[i]);
        }
        assert(es[n].last_date.is_real());
        a_ranking_goes_down(f, group);
        let b = index::ranking(f, group);
        if e.group == group {
            lemma_rank_of(b, e);
            let k = index::rank_of(b, e);
            assert(r == b.insert(k, e));
            assert forall|i: int| 0 <= i < r.len() implies (#[trigger] r[i]).last_date.is_real() by {
                if i < k {
                    assert(r[i] == b[i]);
                } else if i > k {
                    assert(r[i] == b[i - 1]);
                }
            }
            assert forall|i: int, j: int| 0 <= i < j < r.len() implies ranks(
                #[trigger] r[i],
                #[trigger] r[j],
            ) by {
                if i < k {
                    assert(r[i] == b[i]);
                } else if i > k {
                    assert(r[i] == b[i - 1]);
                }
                if j < k {
                    assert(r[j] == b[j]);
                } else if j > k {
                    assert(r[j] == b[j - 1]);
                }
                if j == k {
                    calendar::days_are_in_order(e.last_date, b[i].last_date);
                    calendar::days_are_in_order(b[i].last_date, e.last_date);
                }
                if i == k {
                    calendar::days_are_in_order(e.last_date, b[k].last_date);
                    if j > k + 1 {
                        assert(ranks(b[k], b[j - 1]));
                    }
                }
            }
        }
        assert forall|x: Seen| #[trigger] r.contains(x) <==> es.contains(x) && x.group == group by {
            assert(b.contains(x) <==> f.contains(x) && x.group == group);
            lemma_in_front(es, x);
            if e.group == group {
                lemma_inserted(b, index::rank_of(b, e), e, x);
            }
        }
    } else {
        assert forall|x: Seen| !(#[trigger] r.contains(x)) && !es.contains(x) by {}
    }
}

proof fn lemma_in_front(es: Seq<Seen>, x: Seen)
    requires
        es.len() > 0,
    ensures
        es.contains(x) <==> es.drop_last().contains(x) || es.last() == x,
{
    let f = es.drop_last();
    if es.contains(x) {
        let i = choose|i: int| 0 <= i < es.len() && es[i] == x;
        if i < f.len() {
            assert(f[i] == x);
        }
    }
    if f.contains(x) {
        let i = choose|i: int| 0 <= i < f.len() && f[i] == x;
        assert(es[i] == x);
    }
    if es.last() == x {
        assert(es[es.len() - 1] == x);
    }
}

proof fn lemma_inserted(b: Seq<Seen>, k: int, e: Seen, x: Seen)
    requires
        0 <= k <= b.len(),
    ensures
        b.insert(k, e).contains(x) <==> b.contains(x) || e == x,
{
    let r = b.insert(k, e);
    if r.contains(x) {
        let i = choose|i: int| 0 <= i < r.len() && r[i] == x;
        if i < k {
            assert(b[i] == x);
        } else if i > k {
            assert(b[i - 1] == x);
        }
    }
    if b.contains(x) {
        let i = choose|i: int| 0 <= i < b.len() && b[i] == x;
        if i < k {
            assert(r[i] == x);
        } else {
            assert(r[i + 1] == x);
        }
    }
    if e == x {
        assert(r[k] == x);
    }
}

// ---- counting ----

/// One time that a name is seen.
pub struct Sight {
    pub group: Seq<char>,
    pub name: Seq<char>,
    pub date: Day,
    pub age: i64,
}

/// What is counted of names that are seen one after another.
pub open spec fn counted(ss: Seq<Sight>) -> Seq<Seen>
    decreases ss.len(),
{
    if ss.len() == 0 {
        Seq::empty()
    } else {
        let s = ss.last();
        index::bumped(counted(ss.drop_last()), s.group, s.name, s.date, s.age)
    }
}

/// The times that one name is seen.
pub open spec fn sights_of(ss: Seq<Sight>, group: Seq<char>, name: Seq<char>) -> Seq<Sight>
    decreases ss.len(),
{
    if ss.len() == 0 {
        Seq::empty()
    } else if ss.last().group == group && ss.last().name == name {
        sights_of(ss.drop_last(), group, name).push(ss.last())
    } else {
        sights_of(ss.drop_last(), group, name)
    }
}

/// Whether an entry says what is to be said of the times that a name is seen:
/// how often, how long ago each time, and when last.
pub open spec fn tells(e: Seen, ss: Seq<Sight>) -> bool {
    &&& ss.len() > 0
    &&& e.count == (if ss.len() > u64::MAX {
        u64::MAX as int
    } else {
        ss.len() as int
    })
    &&& e.ages.len() == ss.len()
    &&& forall|i: int| 0 <= i < ss.len() ==> e.ages[i] == (#[trigger] ss[i]).age
    &&& forall|i: int|
        0 <= i < ss.len() ==> (#[trigger] ss[i]).date.number() <= e.last_date.number()
    &&& exists|i: int| 0 <= i < ss.len() && (#[trigger] ss[i]).date == e.last_date
}

proof fn lemma_entry_at(es: Seq<Seen>, group: Seq<char>, name: Seq<char>)
    ensures
        match index::entry_at(es, group, name) {
            Some(i) => 0 <= i < es.len() && es[i].group == group && es[i].name == name,
            None => forall|i: int|
                0 <= i < es.len() ==> !((#[trigger] es[i]).group == group && es[i].name == name),
        },
    decreases es.len(),
{
    if es.len() > 0 && !(es[0].group == group && es[0].name == name) {
        let more = es.skip(1);
        lemma_entry_at(more, group, name);
        match index::entry_at(more, group, name) {
            Some(i) => {
                assert(more[i] == es[i + 1]);
            },
            None => {
                assert forall|i: int| 0 <= i < es.len() implies !((#[trigger] es[i]).group == group
                    && es[i].name == name) by {
                    if i > 0 {
                        assert(more[i - 1] == es[i]);
                    }
                }
            },
        }
    }
}

/// Names are counted each for itself: one has an entry exactly where it is seen,
/// one entry and no more, and the entry says how often it is seen, how long ago
/// each time, and when last.
pub proof fn every_name_is_counted(ss: Seq<Sight>, group: Seq<char>, name: Seq<char>)
    requires
        forall|i: int| 0 <= i < ss.len() ==> (#[trigger] ss[i]).date.is_real(),
    ensures
        ({
            let es = counted(ss);
            let mine = sights_of(ss, group, name);
            &&& all_real(es)
            &&& forall|i: int, j: int|
                0 <= i < j < es.len() ==> (#[trigger] es[i]).group != (#[trigger] es[j]).group
                    || es[i].name != es[j].name
            &&& match index::entry_at(es, group, name) {
                Some(i) => 0 <= i < es.len() && es[i].group == group && es[i].name == name && tells(
                    es[i],
                    mine,
                ),
                None => mine.len() == 0,
            }
        }),
    decreases ss.len(),
{
    let es = counted(ss);
    let mine = sights_of(ss, group, name);
    if ss.len() > 0 {
        let f = ss.drop_last();
        let n = ss.len() - 1;
        let s = ss[n];
        assert forall|i: int| 0 <= i < f.len() implies (#[trigger] f[i]).date.is_real() by {
            assert(f[i] == ss[i]);
        }
        assert(ss[n].date.is_real());
        every_name_is_counted(f, group, name);
        every_name_is_counted(f, s.group, s.name);
        let b = counted(f);
        lemma_entry_at(b, s.group, s.name);
        lemma_entry_at(b, group, name);
        lemma_entry_at(es, group, name);
        match index::entry_at(b, s.group, s.name) {
            Some(k) => {
                calendar::days_are_in_order(b[k].last_date, s.date);
                assert(es.len() == b.len());
                assert forall|i: int| 0 <= i < es.len() && i != k implies #[trigger] es[i]
                    == b[i] by {}
                assert(es[k].group == b[k].group && es[k].name == b[k].name);
                assert(b[k].last_date.is_real());
                if group == s.group && name == s.name {
                    let before = sights_of(f, group, name);
                    assert(index::entry_at(es, group, name) is Some);
                    let i = index::entry_at(es, group, name)->0;
                    assert(i == k);
                    lemma_tells(b[k], before, s);
                } else {
                    match index::entry_at(b, group, name) {
                        Some(j) => {
                            assert(es[j] == b[j]);
                            let i = index::entry_at(es, group, name)->0;
                            assert(i == j);
                        },
                        None => {
                            assert(index::entry_at(es, group, name) is None);
                        },
                    }
                }
            },
            None => {
                assert forall|i: int| 0 <= i < b.len() implies #[trigger] es[i] == b[i] by {}
                let new = es[b.len() as int];
                if group == s.group && name == s.name {
                    let i = index::entry_at(es, group, name)->0;
                    assert(i == b.len());
                    assert(mine =~= seq![s]);
                    assert(mine[0].date == new.last_date);
                } else {
                    match index::entry_at(b, group, name) {
                        Some(j) => {
                            assert(es[j] == b[j]);
                            let i = index::entry_at(es, group, name)->0;
                            assert(i == j);
                        },
                        None => {
                            assert(index::entry_at(es, group, name) is None);
                        },
                    }
                }
            },
        }
    }
}

proof fn lemma_tells(e: Seen, before: Seq<Sight>, s: Sight)
    requires
        tells(e, before),
        e.last_date.is_real(),
        s.date.is_real(),
    ensures
        tells(
            Seen {
                count: if e.count == u64::MAX {
                    u64::MAX
                } else {
                    (e.count + 1) as u64
                },
                last_date: index::later(e.last_date, s.date),
                ages: e.ages.push(s.age),
                ..e
            },
            before.push(s),
        ),
{
    calendar::days_are_in_order(e.last_date, s.date);
    let now = before.push(s);
    let d = index::later(e.last_date, s.date);
    let j = choose|i: int| 0 <= i < before.len() && (#[trigger] before[i]).date == e.last_date;
    assert(now[j] == before[j]);
    assert(now[before.len() as int].date == s.date);
    assert forall|i: int| 0 <= i < now.len() implies (#[trigger] now[i]).date.number()
        <= d.number() by {
        if i < before.len() {
            assert(now[i] == before[i]);
        }
    }
}

/// The times that descriptions are seen in a journal.
pub open spec fn described(ts: Seq<Txn>, today: Day) -> Seq<Sight>
    decreases ts.len(),
{
    if ts.len() == 0 {
        Seq::empty()
    } else {
        let t = ts.last();
        let before = described(ts.drop_last(), today);
        if t.description.len() == 0 {
            before
        } else {
            before.push(
                Sight {
                    group: Seq::empty(),
                    name: t.description,
                    date: t.date,
                    age: days_ago(today, t.date),
                },
            )
        }
    }
}

/// How many days ago a date was. One to come counts as today.
pub open spec fn days_ago(today: Day, date: Day) -> i64 {
    let n = today.number() - date.number();
    if n < 0 {
        0
    } else {
        n as i64
    }
}

/// The times that the postings of a transaction mention accounts.
pub open spec fn mentioned(
    ps: Seq<(Seq<char>, Option<Seq<char>>)>,
    group: Seq<char>,
    date: Day,
    age: i64,
) -> Seq<Sight> {
    ps.map_values(
        |p: (Seq<char>, Option<Seq<char>>)| Sight { group, name: p.0, date, age },
    )
}

/// The times that accounts are seen in a journal: all of them, or each under the
/// payee of its transaction.
pub open spec fn posted_to(ts: Seq<Txn>, today: Day, by_payee: bool) -> Seq<Sight>
    decreases ts.len(),
{
    if ts.len() == 0 {
        Seq::empty()
    } else {
        let t = ts.last();
        let before = posted_to(ts.drop_last(), today, by_payee);
        let ps = t.postings.map_values(|p: PostingRead| (p.account, p.commodity));
        let group = if by_payee {
            payee_of(t)
        } else {
            Seq::empty()
        };
        if by_payee && group.len() == 0 {
            before
        } else {
            before + mentioned(ps, group, t.date, days_ago(today, t.date))
        }
    }
}

proof fn lemma_counted_postings(
    tally: Tally,
    payee: Seq<char>,
    ps: Seq<(Seq<char>, Option<Seq<char>>)>,
    date: Day,
    age: i64,
    plain: Seq<Sight>,
    paid: Seq<Sight>,
)
    requires
        tally.accounts == counted(plain),
        tally.by_payee == counted(paid),
    ensures
        ({
            let out = tally.with_postings(payee, ps, date, age);
            &&& out.accounts == counted(plain + mentioned(ps, Seq::empty(), date, age))
            &&& payee.len() > 0 ==> out.by_payee == counted(
                paid + mentioned(ps, payee, date, age),
            )
            &&& payee.len() == 0 ==> out.by_payee == counted(paid)
            &&& out.descriptions == tally.descriptions
        }),
    decreases ps.len(),
{
    let none = Seq::<char>::empty();
    let a = mentioned(ps, none, date, age);
    let b = mentioned(ps, payee, date, age);
    if ps.len() == 0 {
        assert(plain + a =~= plain);
        assert(paid + b =~= paid);
    } else {
        let f = ps.drop_last();
        lemma_counted_postings(tally, payee, f, date, age, plain, paid);
        assert((plain + a).drop_last() =~= plain + mentioned(f, none, date, age));
        assert((plain + a).last() == a.last());
        assert((paid + b).drop_last() =~= paid + mentioned(f, payee, date, age));
        assert((paid + b).last() == b.last());
    }
}

/// The index counts what a journal holds: every description, every account, and
/// every account under its payee, each time that it is seen, as long ago as that
/// was. A day to come counts as today.
pub proof fn the_index_counts_the_journal(ts: Seq<Txn>, today: Day)
    ensures
        Tally::of(ts, today).descriptions == counted(described(ts, today)),
        Tally::of(ts, today).accounts == counted(posted_to(ts, today, false)),
        Tally::of(ts, today).by_payee == counted(posted_to(ts, today, true)),
    decreases ts.len(),
{
    if ts.len() > 0 {
        let f = ts.drop_last();
        let t = ts.last();
        the_index_counts_the_journal(f, today);
        let before = Tally::of(f, today);
        let age = index::age_of(today, t.date);
        assert(age == days_ago(today, t.date));
        let payee = payee_of(t);
        let ps = t.postings.map_values(|p: PostingRead| (p.account, p.commodity));
        let named = Tally {
            descriptions: if t.description.len() == 0 {
                before.descriptions
            } else {
                index::bumped(before.descriptions, Seq::empty(), t.description, t.date, age)
            },
            payees: if payee.len() == 0 {
                before.payees
            } else {
                index::bumped(before.payees, Seq::empty(), payee, t.date, age)
            },
            ..before
        };
        lemma_counted_postings(
            named,
            payee,
            ps,
            t.date,
            age,
            posted_to(f, today, false),
            posted_to(f, today, true),
        );
        let d = described(ts, today);
        if t.description.len() > 0 {
            assert(d.drop_last() =~= described(f, today));
        }
    }
}

// ---- accounts ----

/// The accounts that are offered for a payee are those seen with it, best first,
/// and then all the others, none of them twice.
pub proof fn accounts_of_the_payee_come_first(
    seen: Seq<Seq<char>>,
    more: Seq<Seq<char>>,
)
    requires
        seen.no_duplicates(),
    ensures
        ({
            let all = scope::with_new(seen, more);
            &&& seen.is_prefix_of(all)
            &&& all.no_duplicates()
            &&& forall|x: Seq<char>| #[trigger] all.contains(x) <==> seen.contains(x)
                || more.contains(x)
        }),
    decreases more.len(),
{
    let all = scope::with_new(seen, more);
    if more.len() == 0 {
        assert(seen =~= all.take(seen.len() as int));
    } else {
        let f = more.drop_last();
        let n = more.len() - 1;
        accounts_of_the_payee_come_first(seen, f);
        let before = scope::with_new(seen, f);
        assert(seen =~= all.take(seen.len() as int)) by {
            assert(seen =~= before.take(seen.len() as int));
        }
        assert forall|x: Seq<char>| #[trigger] all.contains(x) <==> seen.contains(x)
            || more.contains(x) by {
            assert(before.contains(x) <==> seen.contains(x) || f.contains(x));
            if more.contains(x) {
                let i = choose|i: int| 0 <= i < more.len() && more[i] == x;
                if i < n {
                    assert(f[i] == x);
                }
            }
            if f.contains(x) {
                let i = choose|i: int| 0 <= i < f.len() && f[i] == x;
                assert(more[i] == x);
            }
            if !before.contains(more.last()) {
                if all.contains(x) {
                    let i = choose|i: int| 0 <= i < all.len() && all[i] == x;
                    if i < before.len() {
                        assert(before[i] == x);
                    } else {
                        assert(more[n] == x);
                    }
                }
                if before.contains(x) {
                    let i = choose|i: int| 0 <= i < before.len() && before[i] == x;
                    assert(all[i] == x);
                }
                if x == more.last() {
                    assert(all[all.len() - 1] == x);
                }
            }
        }
    }
}

} // verus!
