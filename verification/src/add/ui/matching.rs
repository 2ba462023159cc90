//! What a query finds.

use vstd::prelude::*;
use crate::add::ui::complete::{self, Hit, Hits, Shape};
use crate::config::Completion;
use crate::text::{self, CharClass};

verus! {

// ---- subsequences ----

/// Whether the characters of a text occur in another, in order, whatever stands
/// between them.
pub open spec fn scattered(q: Seq<char>, c: Seq<char>) -> bool
    decreases c.len(),
{
    if q.len() == 0 {
        true
    } else if c.len() == 0 {
        false
    } else {
        ||| q.last() == c.last() && scattered(q.drop_last(), c.drop_last())
        ||| scattered(q, c.drop_last())
    }
}

/// Fewer characters occur where more do.
proof fn lemma_scattered_front(q: Seq<char>, c: Seq<char>, n: int)
    requires
        scattered(q, c),
        0 <= n <= q.len(),
    ensures
        scattered(q.take(n), c),
    decreases c.len(), q.len(),
{
    if n == q.len() {
        assert(q.take(n) =~= q);
    } else if n > 0 {
        let f = q.drop_last();
        if scattered(q, c.drop_last()) {
            lemma_scattered_front(q, c.drop_last(), n);
        } else {
            lemma_scattered_front(f, c.drop_last(), n);
            assert(f.take(n) =~= q.take(n));
        }
    }
}

/// How far a match comes is as far as any comes.
proof fn lemma_over(q: Seq<char>, c: Seq<char>)
    ensures
        ({
            let left = Hits::over(q, c).left;
            let k = q.len() - left.len();
            &&& 0 <= k <= q.len()
            &&& left == q.skip(k)
            &&& scattered(q.take(k), c)
            &&& k < q.len() ==> !scattered(q.take(k + 1), c)
        }),
    decreases c.len(),
{
    if c.len() == 0 {
        assert(q.skip(0) =~= q);
    } else {
        let d = c.drop_last();
        lemma_over(q, d);
        let before = Hits::over(q, d).left;
        let k = q.len() - before.len();
        if before.len() > 0 && c.last() == before[0] {
            assert(before.skip(1) =~= q.skip(k + 1));
            let now = q.take(k + 1);
            assert(now.drop_last() =~= q.take(k));
            assert(now.last() == q[k]);
            assert(before[0] == q[k]);
            if k + 1 < q.len() {
                let more = q.take(k + 2);
                if scattered(more, c) {
                    assert(more.drop_last() =~= now);
                    if scattered(more, d) {
                        lemma_scattered_front(more, d, k + 1);
                        assert(more.take(k + 1) =~= now);
                    }
                }
            }
        } else if k < q.len() {
            let now = q.take(k + 1);
            assert(now.last() == q[k]);
            assert(before[0] == q[k]);
            assert(now.drop_last() =~= q.take(k));
        }
    }
}

// ---- segments ----

/// Whether one segment matches another.
pub open spec fn meets(style: Completion, q: Seq<char>, c: Seq<char>) -> bool {
    match style {
        Completion::Prefix => q.is_prefix_of(c),
        Completion::Substring => text::contains_spec(c, q),
        Completion::Fuzzy => q.len() == 0 || scattered(complete::dense(q), c),
    }
}

proof fn lemma_segment(style: Completion, q: Seq<char>, c: Seq<char>)
    ensures
        (complete::segment_spec(style, q, c) is Some) == meets(style, q, c),
{
    if style == Completion::Fuzzy && q.len() > 0 {
        let d = complete::dense(q);
        lemma_over(d, c);
        let k = d.len() - Hits::over(d, c).left.len();
        if k == d.len() {
            assert(d.take(k) =~= d);
        } else if scattered(d, c) {
            lemma_scattered_front(d, c, k + 1);
        }
    }
}

/// Whether segments match some of others, in order.
pub open spec fn meets_some(style: Completion, qs: Seq<Seq<char>>, cs: Seq<Seq<char>>) -> bool
    decreases cs.len(),
{
    if qs.len() == 0 {
        true
    } else if cs.len() == 0 {
        false
    } else {
        ||| meets(style, qs[0], cs[0]) && meets_some(style, qs.skip(1), cs.skip(1))
        ||| meets_some(style, qs, cs.skip(1))
    }
}

proof fn lemma_meets_fewer(style: Completion, qs: Seq<Seq<char>>, cs: Seq<Seq<char>>)
    requires
        qs.len() > 0,
        meets_some(style, qs, cs),
    ensures
        meets_some(style, qs.skip(1), cs),
    decreases cs.len(),
{
    let more = qs.skip(1);
    if more.len() > 0 {
        let d = cs.skip(1);
        if meets_some(style, qs, d) {
            lemma_meets_fewer(style, qs, d);
        }
    }
}

proof fn lemma_gapped(style: Completion, qs: Seq<Seq<char>>, cs: Seq<Seq<char>>, score: int)
    ensures
        (complete::gapped_spec(style, qs, cs, score) is Some) == meets_some(style, qs, cs),
    decreases cs.len(),
{
    if qs.len() > 0 && cs.len() > 0 {
        lemma_segment(style, qs[0], cs[0]);
        match complete::segment_spec(style, qs[0], cs[0]) {
            Some(s) => {
                lemma_gapped(style, qs.skip(1), cs.skip(1), complete::sat(score + s));
                if meets_some(style, qs, cs.skip(1)) {
                    lemma_meets_fewer(style, qs, cs.skip(1));
                }
            },
            None => {
                lemma_gapped(style, qs, cs.skip(1), score);
            },
        }
    }
}

// ---- queries ----

/// Whether a query matches a candidate, whatever the case: the whole of it, or
/// for accounts segment by segment. By prefix each segment matches the one in its
/// place; otherwise they match some of the segments, in order.
pub open spec fn matches_name(
    style: Completion,
    shape: Shape,
    query: Seq<char>,
    candidate: Seq<char>,
) -> bool {
    let q = text::lowercase(query);
    let c = text::lowercase(candidate);
    match shape {
        Shape::Plain => meets(style, q, c),
        Shape::Account => {
            let qs = text::split_spec(q, CharClass::Is(':'));
            let cs = text::split_spec(c, CharClass::Is(':'));
            if style == Completion::Prefix {
                qs.len() <= cs.len() && forall|i: int|
                    0 <= i < qs.len() ==> meets(style, #[trigger] qs[i], cs[i])
            } else {
                meets_some(style, qs, cs)
            }
        },
    }
}

pub proof fn lemma_quality(
    style: Completion,
    shape: Shape,
    query: Seq<char>,
    candidate: Seq<char>,
)
    ensures
        (complete::quality_spec(style, shape, query, candidate) is Some) == matches_name(
            style,
            shape,
            query,
            candidate,
        ),
{
    let q = text::lowercase(query);
    let c = text::lowercase(candidate);
    lemma_segment(style, q, c);
    let qs = text::split_spec(q, CharClass::Is(':'));
    let cs = text::split_spec(c, CharClass::Is(':'));
    lemma_gapped(style, qs, cs, 0);
    if style == Completion::Prefix && matches_name(style, shape, query, candidate)
        && shape == Shape::Account {
        assert forall|i: int| 0 <= i < qs.len() implies (#[trigger] qs[i]).is_prefix_of(cs[i]) by {
            assert(meets(style, qs[i], cs[i]));
        }
    }
}

/// The candidates that match, in their order.
pub open spec fn matching(
    style: Completion,
    shape: Shape,
    query: Seq<char>,
    pool: Seq<Seq<char>>,
) -> Seq<Seq<char>>
    decreases pool.len(),
{
    if pool.len() == 0 {
        Seq::empty()
    } else if matches_name(style, shape, query, pool.last()) {
        matching(style, shape, query, pool.drop_last()).push(pool.last())
    } else {
        matching(style, shape, query, pool.drop_last())
    }
}

proof fn lemma_hits(style: Completion, shape: Shape, query: Seq<char>, pool: Seq<Seq<char>>)
    ensures
        complete::hits_spec(style, shape, query, pool).map_values(|h: Hit| h.text) == matching(
            style,
            shape,
            query,
            pool,
        ),
    decreases pool.len(),
{
    let hits = complete::hits_spec(style, shape, query, pool);
    if pool.len() > 0 {
        let f = pool.drop_last();
        lemma_hits(style, shape, query, f);
        lemma_quality(style, shape, query, pool.last());
        let before = complete::hits_spec(style, shape, query, f);
        if complete::quality_spec(style, shape, query, pool.last()) is Some {
            assert(hits.map_values(|h: Hit| h.text) =~= before.map_values(
                |h: Hit| h.text,
            ).push(pool.last()));
        }
    } else {
        assert(hits.map_values(|h: Hit| h.text) =~= Seq::empty());
    }
}

/// Completion finds every candidate that matches and no other. By prefix and by
/// substring they stay in the order of the pool; a fuzzy match only reorders
/// them.
pub proof fn every_match_is_found(
    style: Completion,
    shape: Shape,
    query: Seq<char>,
    pool: Seq<Seq<char>>,
)
    ensures
        style != Completion::Fuzzy ==> complete::filter_ranked_spec(style, shape, query, pool)
            == matching(style, shape, query, pool),
        complete::filter_ranked_spec(style, shape, query, pool).to_multiset() == matching(
            style,
            shape,
            query,
            pool,
        ).to_multiset(),
{
    let hits = complete::hits_spec(style, shape, query, pool);
    lemma_hits(style, shape, query, pool);
    if style == Completion::Fuzzy {
        complete::ranking_orders_by_quality(hits);
        lemma_same_texts(complete::by_quality(hits), hits);
    }
}

/// The same hits have the same texts.
proof fn lemma_same_texts(a: Seq<Hit>, b: Seq<Hit>)
    requires
        a.to_multiset() == b.to_multiset(),
    ensures
        a.map_values(|h: Hit| h.text).to_multiset() == b.map_values(
            |h: Hit| h.text,
        ).to_multiset(),
    decreases a.len(),
{
    broadcast use vstd::seq_lib::group_to_multiset_ensures;

    let f = |h: Hit| h.text;
    if a.len() == 0 {
        assert(b.len() == 0) by {
            a.to_multiset_ensures();
            b.to_multiset_ensures();
        }
        assert(a.map_values(f) =~= b.map_values(f));
    } else {
        let x = a.last();
        let d = a.drop_last();
        a.to_multiset_ensures();
        b.to_multiset_ensures();
        assert(a =~= d.push(x));
        d.to_multiset_ensures();
        assert(a.to_multiset().count(x) > 0);
        assert(b.contains(x));
        let i = choose|i: int| 0 <= i < b.len() && b[i] == x;
        let e = b.remove(i);
        b.to_multiset_ensures();
        assert(e.to_multiset() =~= b.to_multiset().remove(x));
        assert(d.to_multiset() =~= a.to_multiset().remove(x));
        lemma_same_texts(d, e);
        let am = a.map_values(f);
        let bm = b.map_values(f);
        let dm = d.map_values(f);
        let em = e.map_values(f);
        assert(am =~= dm.push(x.text));
        assert(em =~= bm.remove(i));
        assert(bm[i] == x.text);
        dm.to_multiset_ensures();
        bm.to_multiset_ensures();
        assert(am.to_multiset() =~= dm.to_multiset().insert(x.text));
        assert(em.to_multiset() =~= bm.to_multiset().remove(x.text));
        assert(bm.contains(x.text));
        assert(bm.to_multiset() =~= em.to_multiset().insert(x.text));
    }
}

// ---- quality ----

proof fn lemma_unmet(q: Seq<char>, x: Seq<char>)
    requires
        q.len() > 0,
        !x.contains(q[0]),
    ensures
        Hits::over(q, x) == Hits::start(q),
    decreases x.len(),
{
    if x.len() > 0 {
        let f = x.drop_last();
        if f.contains(q[0]) {
            let i = choose|i: int| 0 <= i < f.len() && f[i] == q[0];
            assert(x[i] == q[0]);
        }
        lemma_unmet(q, f);
        assert(x[x.len() - 1] != q[0]) by {
            assert(x.contains(x[x.len() - 1]));
        }
    }
}

proof fn lemma_run_met(q: Seq<char>, x: Seq<char>, n: int)
    requires
        0 < n <= q.len() <= 1000000,
        !x.contains(q[0]),
    ensures
        Hits::over(q, x + q.take(n)) == (Hits {
            score: 25 * n - 15,
            first: Some(x.len() as int),
            last: Some(x.len() + n - 1),
            left: q.skip(n),
        }),
    decreases n,
{
    let all = x + q.take(n);
    let front = x + q.take(n - 1);
    assert(all.drop_last() =~= front);
    assert(all.last() == q[n - 1]);
    if n == 1 {
        assert(front =~= x);
        lemma_unmet(q, x);
        assert(q.skip(1) =~= Hits::start(q).left.skip(1));
    } else {
        lemma_run_met(q, x, n - 1);
        assert(q.skip(n - 1)[0] == q[n - 1]);
        assert(q.skip(n - 1).skip(1) =~= q.skip(n));
    }
}

proof fn lemma_dense(q: Seq<char>)
    requires
        forall|i: int| 0 <= i < q.len() ==> !text::is_white(#[trigger] q[i]),
    ensures
        complete::dense(q) == q,
    decreases q.len(),
{
    if q.len() > 0 {
        let f = q.drop_last();
        assert forall|i: int| 0 <= i < f.len() implies !text::is_white(#[trigger] f[i]) by {
            assert(f[i] == q[i]);
        }
        lemma_dense(f);
        assert(!text::is_white(q[q.len() - 1]));
        assert(f.push(q.last()) =~= q);
    }
}

/// A fuzzy match in one piece is worth ten for each character and fifteen more
/// for each that follows the one before, less one for each character before it,
/// up to twenty: the earlier it stands, the better.
pub proof fn an_early_match_in_one_piece_is_best(q: Seq<char>, x: Seq<char>, y: Seq<char>)
    requires
        0 < q.len() <= 1000000,
        forall|i: int| 0 <= i < q.len() ==> !text::is_white(#[trigger] q[i]),
        !x.contains(q[0]),
    ensures
        complete::fuzzy_spec(q, x + q + y) == Some(
            25 * q.len() - 15 - if x.len() < 20 {
                x.len() as int
            } else {
                20
            },
        ),
{
    let n = q.len() as int;
    lemma_dense(q);
    lemma_run_met(q, x, n);
    assert(q.take(n) =~= q);
    lemma_done(q, x + q, y);
    assert(q.skip(n).len() == 0);
}

/// Once all is found nothing more counts.
proof fn lemma_done(q: Seq<char>, c: Seq<char>, y: Seq<char>)
    requires
        Hits::over(q, c).left.len() == 0,
    ensures
        Hits::over(q, c + y) == Hits::over(q, c),
    decreases y.len(),
{
    if y.len() == 0 {
        assert(c + y =~= c);
    } else {
        lemma_done(q, c, y.drop_last());
        assert((c + y).drop_last() =~= c + y.drop_last());
        assert((c + y).last() == y.last());
    }
}

} // verus!
