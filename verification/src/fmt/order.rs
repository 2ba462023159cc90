//! What sorting by date promises.

use vstd::multiset::Multiset;
use vstd::prelude::*;
use crate::fmt::blank;
use crate::fmt::sort::{self, DateKey, Entry};
use crate::lex;

verus! {

/// The transactions of one date, in order.
pub open spec fn on_date(es: Seq<Entry>, k: DateKey) -> Seq<Entry>
    decreases es.len(),
{
    if es.len() == 0 {
        Seq::empty()
    } else if es.last() is Txn && es.last().key() == k {
        on_date(es.drop_last(), k).push(es.last())
    } else {
        on_date(es.drop_last(), k)
    }
}

/// Whether the transactions among entries stand in date order.
pub open spec fn ordered(es: Seq<Entry>) -> bool {
    forall|i: int, j: int|
        0 <= i < j < es.len() && es[i] is Txn && es[j] is Txn ==> (#[trigger] es[i]).key().le(
            (#[trigger] es[j]).key(),
        )
}

/// The lines of the entries that are transactions, or of those that are not.
pub open spec fn lines_among(es: Seq<Entry>, txn: bool) -> Multiset<Seq<char>>
    decreases es.len(),
{
    if es.len() == 0 {
        Multiset::empty()
    } else if (es.last() is Txn) == txn {
        lines_among(es.drop_last(), txn).add(es.last().lines().to_multiset())
    } else {
        lines_among(es.drop_last(), txn)
    }
}

proof fn lemma_on_date_concat(a: Seq<Entry>, b: Seq<Entry>, k: DateKey)
    ensures
        on_date(a + b, k) == on_date(a, k) + on_date(b, k),
    decreases b.len(),
{
    if b.len() == 0 {
        assert(a + b =~= a);
        assert(on_date(a, k) + on_date(b, k) =~= on_date(a, k));
    } else {
        lemma_on_date_concat(a, b.drop_last(), k);
        assert((a + b).drop_last() =~= a + b.drop_last());
        assert((a + b).last() == b.last());
        assert(on_date(a + b, k) =~= on_date(a, k) + on_date(b, k));
    }
}

proof fn lemma_lines_among_concat(a: Seq<Entry>, b: Seq<Entry>, txn: bool)
    ensures
        lines_among(a + b, txn) == lines_among(a, txn).add(lines_among(b, txn)),
    decreases b.len(),
{
    if b.len() == 0 {
        assert(a + b =~= a);
        assert(lines_among(a, txn).add(lines_among(b, txn)) =~= lines_among(a, txn));
    } else {
        lemma_lines_among_concat(a, b.drop_last(), txn);
        assert((a + b).drop_last() =~= a + b.drop_last());
        assert((a + b).last() == b.last());
        assert(lines_among(a + b, txn) =~= lines_among(a, txn).add(lines_among(b, txn)));
    }
}

/// No transaction of a date where none has it.
proof fn lemma_on_date_none(es: Seq<Entry>, k: DateKey)
    requires
        forall|i: int| 0 <= i < es.len() ==> (#[trigger] es[i]).key() != k,
    ensures
        on_date(es, k) == Seq::<Entry>::empty(),
    decreases es.len(),
{
    if es.len() > 0 {
        assert(es[es.len() - 1].key() != k);
        let f = es.drop_last();
        assert forall|i: int| 0 <= i < f.len() implies (#[trigger] f[i]).key() != k by {
            assert(f[i] == es[i]);
        }
        lemma_on_date_none(f, k);
    }
}

/// Where a transaction belongs among ordered ones: behind those of its date and
/// before, ahead of the later ones.
pub proof fn lemma_slot(es: Seq<Entry>, key: DateKey)
    requires
        ordered(es),
        forall|i: int| 0 <= i < es.len() ==> (#[trigger] es[i]) is Txn,
    ensures
        ({
            let p = sort::slot_spec(es, key);
            &&& 0 <= p <= es.len()
            &&& forall|i: int| 0 <= i < p ==> (#[trigger] es[i]).key().le(key)
            &&& forall|i: int| p <= i < es.len() ==> !(#[trigger] es[i]).key().le(key)
        }),
    decreases es.len(),
{
    if es.len() == 0 {
    } else if es.last().key().le(key) {
        assert forall|i: int| 0 <= i < es.len() implies (#[trigger] es[i]).key().le(key) by {
            if i < es.len() - 1 {
                assert(es[i].key().le(es[es.len() - 1].key()));
            }
        }
    } else {
        let f = es.drop_last();
        assert forall|i: int| 0 <= i < f.len() implies (#[trigger] f[i]) is Txn by {
            assert(f[i] == es[i]);
        }
        assert(ordered(f)) by {
            assert forall|i: int, j: int|
                0 <= i < j < f.len() && f[i] is Txn && f[j] is Txn implies (#[trigger] f[i]).key().le(
                (#[trigger] f[j]).key(),
            ) by {
                assert(es[i].key().le(es[j].key()));
            }
        }
        lemma_slot(f, key);
        let p = sort::slot_spec(f, key);
        assert forall|i: int| 0 <= i < p implies (#[trigger] es[i]).key().le(key) by {
            assert(f[i].key().le(key));
        }
        assert forall|i: int| p <= i < es.len() implies !(#[trigger] es[i]).key().le(key) by {
            if i < f.len() {
                assert(!f[i].key().le(key));
            }
        }
    }
}

/// The transactions of a run are put in date order, those of one date stay in
/// the order they had, and no line is lost.
pub proof fn lemma_sorted(run: Seq<Entry>)
    ensures
        ({
            let s = sort::sorted_spec(run);
            &&& s.len() == sort::txns_spec(run)
            &&& forall|i: int| 0 <= i < s.len() ==> (#[trigger] s[i]) is Txn
            &&& ordered(s)
            &&& forall|k: DateKey| #[trigger] on_date(s, k) == on_date(run, k)
            &&& lines_among(s, true) == lines_among(run, true)
        }),
    decreases run.len(),
{
    let s = sort::sorted_spec(run);
    if run.len() > 0 {
        let f = run.drop_last();
        lemma_sorted(f);
        let b = sort::sorted_spec(f);
        if run.last() is Txn {
            let x = run.last();
            lemma_slot(b, x.key());
            let p = sort::slot_spec(b, x.key());
            assert(s == b.insert(p, x));
            let one = seq![x];
            let lo = b.take(p);
            let hi = b.skip(p);
            assert(s =~= lo + (one + hi));
            assert(b =~= lo + hi);
            assert(one.drop_last() =~= Seq::empty());
            assert(ordered(s)) by {
                assert forall|i: int, j: int|
                    0 <= i < j < s.len() && s[i] is Txn && s[j] is Txn implies (
                #[trigger] s[i]).key().le((#[trigger] s[j]).key()) by {
                    let u = if i < p {
                        i
                    } else {
                        i - 1
                    };
                    let v = if j < p {
                        j
                    } else {
                        j - 1
                    };
                    if i == p {
                        assert(s[j] == b[v]);
                        assert(!b[v].key().le(x.key()));
                    } else if j == p {
                        assert(s[i] == b[u]);
                        assert(b[u].key().le(x.key()));
                    } else {
                        assert(s[i] == b[u] && s[j] == b[v]);
                        assert(b[u].key().le(b[v].key()));
                    }
                }
            }
            assert forall|k: DateKey| #[trigger] on_date(s, k) == on_date(run, k) by {
                lemma_on_date_concat(lo, one + hi, k);
                lemma_on_date_concat(one, hi, k);
                lemma_on_date_concat(lo, hi, k);
                assert(on_date(b, k) == on_date(f, k));
                assert(on_date(one.drop_last(), k) == Seq::<Entry>::empty());
                if k == x.key() {
                    assert forall|i: int| 0 <= i < hi.len() implies (#[trigger] hi[i]).key()
                        != k by {
                        assert(hi[i] == b[p + i]);
                        assert(!b[p + i].key().le(k));
                    }
                    lemma_on_date_none(hi, k);
                    assert(on_date(one, k) =~= seq![x]);
                    assert(on_date(s, k) =~= on_date(run, k));
                } else {
                    assert(on_date(one, k) =~= Seq::empty());
                    assert(on_date(s, k) =~= on_date(run, k));
                }
            }
            lemma_lines_among_concat(lo, one + hi, true);
            lemma_lines_among_concat(one, hi, true);
            lemma_lines_among_concat(lo, hi, true);
            assert(lines_among(one, true) == lines_among(one.drop_last(), true).add(
                x.lines().to_multiset(),
            ));
            assert(lines_among(s, true) =~= lines_among(run, true));
        }
    }
}

pub proof fn lemma_txns(run: Seq<Entry>)
    ensures
        0 <= sort::txns_spec(run) <= run.len(),
    decreases run.len(),
{
    if run.len() > 0 {
        lemma_txns(run.drop_last());
    }
}

/// A run with its transactions replaced, entry by entry.
proof fn lemma_refill(run: Seq<Entry>, s: Seq<Entry>)
    requires
        s.len() >= sort::txns_spec(run),
        forall|i: int| 0 <= i < s.len() ==> (#[trigger] s[i]) is Txn,
    ensures
        ({
            let out = sort::refill_spec(run, s);
            let n = sort::txns_spec(run);
            &&& out.len() == run.len()
            &&& forall|i: int|
                0 <= i < run.len() ==> (if run[i] is Txn {
                    (#[trigger] out[i]) is Txn
                } else {
                    out[i] == run[i]
                })
            &&& forall|k: DateKey| #[trigger] on_date(out, k) == on_date(s.take(n), k)
            &&& lines_among(out, true) == lines_among(s.take(n), true)
            &&& lines_among(out, false) == lines_among(run, false)
            &&& (ordered(s.take(n)) ==> ordered(out))
        }),
    decreases run.len(),
{
    let out = sort::refill_spec(run, s);
    let n = sort::txns_spec(run);
    lemma_txns(run);
    if run.len() == 0 {
        assert(s.take(0) =~= Seq::empty());
    } else {
        let f = run.drop_last();
        let m = sort::txns_spec(f);
        lemma_txns(f);
        lemma_refill(f, s);
        let before = sort::refill_spec(f, s);
        let last = if run.last() is Txn {
            s[m]
        } else {
            run.last()
        };
        assert(out == before.push(last));
        assert(out.drop_last() =~= before);
        assert(out.last() == last);
        if run.last() is Txn {
            assert(s.take(n).drop_last() =~= s.take(m));
            assert(s.take(n).last() == s[m]);
        }
        assert forall|k: DateKey| #[trigger] on_date(out, k) == on_date(s.take(n), k) by {
            assert(on_date(before, k) == on_date(s.take(m), k));
        }
        assert forall|i: int| 0 <= i < run.len() implies (if run[i] is Txn {
            (#[trigger] out[i]) is Txn
        } else {
            out[i] == run[i]
        }) by {
            if i < f.len() {
                assert(f[i] == run[i]);
                assert(out[i] == before[i]);
            }
        }
        if ordered(s.take(n)) {
            lemma_refill_ordered(run, s);
        }
    }
}

/// Which of the list a transaction of a refilled run is.
proof fn lemma_refill_ordered(run: Seq<Entry>, s: Seq<Entry>)
    requires
        s.len() >= sort::txns_spec(run),
        forall|i: int| 0 <= i < s.len() ==> (#[trigger] s[i]) is Txn,
        ordered(s.take(sort::txns_spec(run))),
    ensures
        ordered(sort::refill_spec(run, s)),
{
    let out = sort::refill_spec(run, s);
    assert forall|i: int, j: int|
        0 <= i < j < out.len() && out[i] is Txn && out[j] is Txn implies (#[trigger] out[i]).key().le(
        (#[trigger] out[j]).key(),
    ) by {
        lemma_refill_at(run, s, i);
        lemma_refill_at(run, s, j);
        lemma_refill_len(run, s);
        let a = sort::txns_spec(run.take(i));
        let b = sort::txns_spec(run.take(j));
        lemma_txns_grow(run, i + 1, j);
        lemma_txns_grow(run, j + 1, run.len() as int);
        assert(run.take(i + 1).drop_last() =~= run.take(i));
        assert(run.take(i + 1).last() == run[i]);
        assert(run.take(j + 1).drop_last() =~= run.take(j));
        assert(run.take(j + 1).last() == run[j]);
        assert(run.take(run.len() as int) =~= run);
        lemma_txns(run.take(i));
        let t = s.take(sort::txns_spec(run));
        assert(t[a] == s[a] && t[b] == s[b]);
        assert(t[a].key().le(t[b].key()));
    }
}

pub proof fn lemma_refill_len(run: Seq<Entry>, s: Seq<Entry>)
    ensures
        sort::refill_spec(run, s).len() == run.len(),
    decreases run.len(),
{
    if run.len() > 0 {
        lemma_refill_len(run.drop_last(), s);
    }
}

pub proof fn lemma_refill_at(run: Seq<Entry>, s: Seq<Entry>, i: int)
    requires
        0 <= i < sort::refill_spec(run, s).len(),
        s.len() >= sort::txns_spec(run),
        forall|i: int| 0 <= i < s.len() ==> (#[trigger] s[i]) is Txn,
    ensures
        i < run.len(),
        sort::refill_spec(run, s)[i] == if run[i] is Txn {
            s[sort::txns_spec(run.take(i))]
        } else {
            run[i]
        },
    decreases run.len(),
{
    lemma_refill_len(run, s);
    if run.len() > 0 {
        let f = run.drop_last();
        lemma_refill_len(f, s);
        if i < f.len() {
            lemma_txns(f);
            lemma_refill_at(f, s, i);
            assert(f.take(i) =~= run.take(i));
        } else {
            assert(run.take(i) =~= f);
        }
    }
}

pub proof fn lemma_txns_grow(run: Seq<Entry>, i: int, j: int)
    requires
        0 <= i <= j <= run.len(),
    ensures
        sort::txns_spec(run.take(i)) <= sort::txns_spec(run.take(j)),
    decreases j - i,
{
    if i < j {
        lemma_txns_grow(run, i, j - 1);
        assert(run.take(j).drop_last() =~= run.take(j - 1));
    }
}

/// A sorted run: its transactions are in date order, those of one date in the
/// order they had, and everything else stands where it stood.
pub proof fn lemma_sort_run(run: Seq<Entry>)
    ensures
        ({
            let out = sort::sort_run_spec(run);
            &&& out.len() == run.len()
            &&& ordered(out)
            &&& forall|i: int|
                0 <= i < run.len() ==> (if run[i] is Txn {
                    (#[trigger] out[i]) is Txn
                } else {
                    out[i] == run[i]
                })
            &&& forall|k: DateKey| #[trigger] on_date(out, k) == on_date(run, k)
            &&& lines_among(out, true) == lines_among(run, true)
            &&& lines_among(out, false) == lines_among(run, false)
        }),
{
    let s = sort::sorted_spec(run);
    lemma_sorted(run);
    lemma_refill(run, s);
    assert(s.take(s.len() as int) =~= s);
    let out = sort::sort_run_spec(run);
    assert forall|k: DateKey| #[trigger] on_date(out, k) == on_date(run, k) by {
        assert(on_date(s, k) == on_date(run, k));
    }
}

/// Whether a position is that of a barrier, or the end.
pub open spec fn bounds(es: Seq<Entry>, n: int) -> bool {
    n == es.len() || 0 <= n < es.len() && es[n] is Anchor
}

/// Whether no barrier stands between two positions.
pub open spec fn within(es: Seq<Entry>, i: int, j: int) -> bool {
    forall|m: int| i < m < j ==> !((#[trigger] es[m]) is Anchor)
}

/// What it means for entries to be sorted between their barriers.
pub open spec fn sorted_between(es: Seq<Entry>, out: Seq<Entry>) -> bool {
    &&& out.len() == es.len()
    &&& forall|i: int|
        0 <= i < es.len() ==> (if es[i] is Txn {
            (#[trigger] out[i]) is Txn
        } else {
            out[i] == es[i]
        })
    &&& forall|i: int, j: int|
        0 <= i < j < out.len() && es[i] is Txn && es[j] is Txn && within(es, i, j) ==> (
        #[trigger] out[i]).key().le((#[trigger] out[j]).key())
    &&& forall|n: int, k: DateKey|
        bounds(es, n) ==> #[trigger] on_date(out.take(n), k) == on_date(es.take(n), k)
    &&& lines_among(out, true) == lines_among(es, true)
    &&& lines_among(out, false) == lines_among(es, false)
}

/// Entries sorted up to a barrier, and those behind it.
proof fn lemma_join_sorted(
    a: Seq<Entry>,
    x: Entry,
    b: Seq<Entry>,
    oa: Seq<Entry>,
    ob: Seq<Entry>,
)
    requires
        x is Anchor,
        sorted_between(a, oa),
        sorted_between(b, ob),
        forall|i: int| 0 <= i < a.len() ==> !((#[trigger] a[i]) is Anchor),
    ensures
        sorted_between(a.push(x) + b, oa.push(x) + ob),
{
    let es = a.push(x) + b;
    let out = oa.push(x) + ob;
    let m = a.len() as int + 1;
    assert forall|i: int| 0 <= i < es.len() implies (if es[i] is Txn {
        (#[trigger] out[i]) is Txn
    } else {
        out[i] == es[i]
    }) by {
        if i < a.len() {
            assert(es[i] == a[i] && out[i] == oa[i]);
        } else if i >= m {
            assert(es[i] == b[i - m] && out[i] == ob[i - m]);
        }
    }
    assert forall|i: int, j: int|
        0 <= i < j < out.len() && es[i] is Txn && es[j] is Txn && within(es, i, j) implies (
    #[trigger] out[i]).key().le((#[trigger] out[j]).key()) by {
        if i < a.len() && j >= m {
            assert(es[m - 1] is Anchor);
        } else if i < a.len() {
            assert(es[i] == a[i] && es[j] == a[j] && out[i] == oa[i] && out[j] == oa[j]);
            assert(within(a, i, j));
        } else {
            assert(es[i] == b[i - m] && es[j] == b[j - m]);
            assert(out[i] == ob[i - m] && out[j] == ob[j - m]);
            assert(within(b, i - m, j - m)) by {
                assert forall|q: int| i - m < q < j - m implies !((#[trigger] b[q]) is Anchor) by {
                    assert(es[q + m] == b[q]);
                }
            }
        }
    }
    assert forall|n: int, k: DateKey| bounds(es, n) implies #[trigger] on_date(out.take(n), k)
        == on_date(es.take(n), k) by {
        assert(bounds(a, a.len() as int));
        assert(oa.take(a.len() as int) =~= oa);
        assert(a.take(a.len() as int) =~= a);
        assert(on_date(oa.take(a.len() as int), k) == on_date(a.take(a.len() as int), k));
        if n < m {
            if n < a.len() {
                assert(es[n] == a[n]);
            }
            assert(n == a.len());
            assert(out.take(n) =~= oa);
            assert(es.take(n) =~= a);
        } else {
            let q = n - m;
            assert(out.take(n) =~= oa.push(x) + ob.take(q));
            assert(es.take(n) =~= a.push(x) + b.take(q));
            if n < es.len() {
                assert(es[n] == b[q]);
            }
            assert(bounds(b, q));
            assert(on_date(ob.take(q), k) == on_date(b.take(q), k));
            lemma_on_date_concat(oa.push(x), ob.take(q), k);
            lemma_on_date_concat(a.push(x), b.take(q), k);
            assert(oa.push(x).drop_last() =~= oa);
            assert(a.push(x).drop_last() =~= a);
        }
    }
    assert(oa.push(x).drop_last() =~= oa);
    assert(a.push(x).drop_last() =~= a);
    lemma_lines_among_concat(oa.push(x), ob, true);
    lemma_lines_among_concat(oa.push(x), ob, false);
    lemma_lines_among_concat(a.push(x), b, true);
    lemma_lines_among_concat(a.push(x), b, false);
}

pub proof fn lemma_sort_runs(rest: Seq<Entry>, run: Seq<Entry>)
    requires
        forall|i: int| 0 <= i < run.len() ==> !((#[trigger] run[i]) is Anchor),
    ensures
        sorted_between(run + rest, sort::sort_runs_spec(rest, run)),
    decreases rest.len(),
{
    if rest.len() == 0 || rest[0] is Anchor {
        let out = sort::sort_run_spec(run);
        lemma_sort_run(run);
        assert(sorted_between(run, out)) by {
            assert forall|n: int, k: DateKey| bounds(run, n) implies #[trigger] on_date(
                out.take(n),
                k,
            ) == on_date(run.take(n), k) by {
                assert(n == run.len());
                assert(out.take(n) =~= out);
                assert(run.take(n) =~= run);
                assert(on_date(out, k) == on_date(run, k));
            }
        }
        if rest.len() == 0 {
            assert(run + rest =~= run);
        } else {
            let none = Seq::<Entry>::empty();
            let tail = rest.skip(1);
            lemma_sort_runs(tail, none);
            assert(none + tail =~= tail);
            lemma_join_sorted(run, rest[0], tail, out, sort::sort_runs_spec(tail, none));
            assert(run + rest =~= run.push(rest[0]) + tail);
        }
    } else {
        lemma_sort_runs(rest.skip(1), run.push(rest[0]));
        assert(run + rest =~= run.push(rest[0]) + rest.skip(1));
    }
}

/// Sorting is bounded by directives and stable. Directives, standalone comments
/// and blank lines stand where they stood. Between two barriers transactions
/// stand in date order. Up to every barrier, the transactions of a date are
/// those that were there, in the order they had: none crosses a barrier, and
/// equal dates keep their order.
pub proof fn sorting_is_bounded_and_stable(ls: Seq<Seq<char>>)
    ensures
        ({
            let es = sort::entries_spec(ls, Seq::empty());
            sorted_between(es, sort::sort_runs_spec(es, Seq::empty()))
        }),
{
    let es = sort::entries_spec(ls, Seq::empty());
    lemma_sort_runs(es, Seq::empty());
    assert(Seq::<Entry>::empty() + es =~= es);
}

// ---- lines ----

pub proof fn lemma_entry_lines_concat(a: Seq<Entry>, b: Seq<Entry>)
    ensures
        sort::entry_lines_spec(a + b) == sort::entry_lines_spec(a) + sort::entry_lines_spec(b),
    decreases b.len(),
{
    if b.len() == 0 {
        assert(a + b =~= a);
        assert(sort::entry_lines_spec(a) + sort::entry_lines_spec(b) =~= sort::entry_lines_spec(a));
    } else {
        lemma_entry_lines_concat(a, b.drop_last());
        assert((a + b).drop_last() =~= a + b.drop_last());
        assert((a + b).last() == b.last());
        assert(sort::entry_lines_spec(a + b) =~= sort::entry_lines_spec(a)
            + sort::entry_lines_spec(b));
    }
}

pub proof fn lemma_entry_lines_one(e: Entry)
    ensures
        sort::entry_lines_spec(seq![e]) == e.lines(),
{
    assert(seq![e].drop_last() =~= Seq::empty());
    assert(sort::entry_lines_spec(Seq::<Entry>::empty()) =~= Seq::empty());
    assert(sort::entry_lines_spec(seq![e]) =~= e.lines());
}

/// Whether lines are others, with the blank ones emptied or not.
pub open spec fn same_lines(a: Seq<Seq<char>>, b: Seq<Seq<char>>) -> bool {
    &&& a.len() == b.len()
    &&& forall|i: int|
        0 <= i < a.len() ==> #[trigger] a[i] == b[i] || a[i].len() == 0 && lex::is_blank_spec(
            b[i],
        )
}

proof fn lemma_entries_hold(rest: Seq<Seq<char>>, pending: Seq<Seq<char>>)
    ensures
        same_lines(sort::entry_lines_spec(sort::entries_spec(rest, pending)), pending + rest),
    decreases rest.len(),
{
    let none = Seq::<Seq<char>>::empty();
    let es = sort::entries_spec(rest, pending);
    let held = sort::held_spec(pending);
    assert(sort::entry_lines_spec(held) =~= pending) by {
        if pending.len() > 0 {
            lemma_entry_lines_one(Entry::Anchor(pending));
        }
    }
    if rest.len() == 0 {
        assert(pending + rest =~= pending);
    } else {
        let line = rest[0];
        let tail = rest.skip(1);
        if lex::is_blank_spec(line) {
            let more = sort::entries_spec(tail, none);
            lemma_entries_hold(tail, none);
            assert(none + tail =~= tail);
            lemma_entry_lines_concat(held + seq![Entry::Blank], more);
            lemma_entry_lines_concat(held, seq![Entry::Blank]);
            lemma_entry_lines_one(Entry::Blank);
            let a = sort::entry_lines_spec(es);
            let b = pending + rest;
            let c = sort::entry_lines_spec(more);
            assert(a =~= pending + seq![Seq::<char>::empty()] + c);
            assert forall|i: int| 0 <= i < a.len() implies #[trigger] a[i] == b[i]
                || a[i].len() == 0 && lex::is_blank_spec(b[i]) by {
                if i > pending.len() {
                    assert(a[i] == c[i - pending.len() - 1]);
                    assert(b[i] == tail[i - pending.len() - 1]);
                }
            }
        } else if lex::is_comment_spec(line) {
            lemma_entries_hold(tail, pending.push(line));
            assert(pending.push(line) + tail =~= pending + rest);
        } else {
            blank::lemma_body_len(line, tail);
            let n = blank::body_len_spec(line, tail);
            let block = pending.push(line) + tail.take(n);
            let after = tail.skip(n);
            let e = if lex::opens_txn_spec(line) {
                Entry::Txn(sort::date_key_spec(line), block)
            } else {
                Entry::Anchor(block)
            };
            let more = sort::entries_spec(after, none);
            lemma_entries_hold(after, none);
            assert(none + after =~= after);
            assert(es =~= seq![e] + more);
            lemma_entry_lines_concat(seq![e], more);
            lemma_entry_lines_one(e);
            let a = sort::entry_lines_spec(es);
            let b = pending + rest;
            let c = sort::entry_lines_spec(more);
            assert(b =~= block + after);
            assert(a == block + c);
            assert forall|i: int| 0 <= i < a.len() implies #[trigger] a[i] == b[i]
                || a[i].len() == 0 && lex::is_blank_spec(b[i]) by {
                if i >= block.len() {
                    assert(a[i] == c[i - block.len()]);
                    assert(b[i] == after[i - block.len()]);
                }
            }
        }
    }
}

proof fn lemma_lines_in(es: Seq<Entry>)
    ensures
        sort::entry_lines_spec(es).to_multiset() == lines_among(es, true).add(
            lines_among(es, false),
        ),
    decreases es.len(),
{
    let a = sort::entry_lines_spec(es).to_multiset();
    let b = lines_among(es, true).add(lines_among(es, false));
    if es.len() == 0 {
        assert(sort::entry_lines_spec(es) =~= Seq::empty());
        sort::entry_lines_spec(es).to_multiset_ensures();
        assert(a.len() == 0);
        assert(a =~= Multiset::empty());
        assert(b =~= Multiset::empty());
    } else {
        lemma_lines_in(es.drop_last());
        vstd::seq_lib::lemma_multiset_commutative(
            sort::entry_lines_spec(es.drop_last()),
            es.last().lines(),
        );
        assert(a =~= b);
    }
}

/// Sorting loses no line and makes none, but for what blank lines hold: the
/// lines of the entries are those of the text, and sorting only moves them.
pub proof fn sorting_keeps_the_lines(ls: Seq<Seq<char>>)
    ensures
        ({
            let es = sort::entries_spec(ls, Seq::empty());
            &&& same_lines(sort::entry_lines_spec(es), ls)
            &&& sort::sort_entries_spec(ls).to_multiset() == sort::entry_lines_spec(
                es,
            ).to_multiset()
        }),
{
    let none = Seq::<Seq<char>>::empty();
    let es = sort::entries_spec(ls, none);
    lemma_entries_hold(ls, none);
    assert(none + ls =~= ls);
    sorting_is_bounded_and_stable(ls);
    lemma_lines_in(es);
    lemma_lines_in(sort::sort_runs_spec(es, Seq::empty()));
}

} // verus!
