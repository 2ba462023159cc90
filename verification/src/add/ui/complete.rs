//! Completion: matching, and the text Tab inserts.
//!
//! Three styles (`prefix`, `substring`, `fuzzy`) over two candidate shapes.
//! Account names are colon-segmented and every style matches *within* a
//! segment — never across a `:`. Descriptions and commodities are plain
//! strings and the same styles apply to the whole of them.
//!
//! `prefix` is anchored: query segment *i* against candidate segment *i*,
//! no gaps, so `gro` never reaches `expenses:groceries` and `a:s` never
//! reaches `assets:bank:savings`. `substring` and `fuzzy` match segments in
//! order but allow gaps, which is what lets a bare `check` find
//! `assets:bank:checking`.
//!
//! Candidate lists arrive already frecency-ranked. For `prefix` and
//! `substring` that order is preserved; `fuzzy` re-ranks by match quality
//! first (that is its point), with frecency as the tie-break. Ranking never
//! drives Tab insertion — see [`complete`], where only unanimity does.

use vstd::prelude::*;
use vstd::string::*;
use crate::config::Completion;
use crate::text::{self, CharClass};

verus! {

/// What a candidate list is shaped like.
#[derive(Debug, Clone, Copy, PartialEq, Eq, Structural)]
pub enum Shape {
    /// Colon-segmented account names.
    Account,
    /// Plain strings: descriptions, commodities.
    Plain,
}

// ---- match quality ----

/// A number kept between the smallest and the largest quality.
pub open spec fn sat(n: int) -> int {
    if n > i64::MAX {
        i64::MAX as int
    } else if n < i64::MIN {
        i64::MIN as int
    } else {
        n
    }
}

fn plus(a: i64, b: i64) -> (r: i64)
    ensures
        r == sat(a + b),
{
    let n: i128 = a as i128 + b as i128;
    if n > i64::MAX as i128 {
        i64::MAX
    } else if n < i64::MIN as i128 {
        i64::MIN
    } else {
        n as i64
    }
}

/// A text without its white space.
pub open spec fn dense(s: Seq<char>) -> Seq<char>
    decreases s.len(),
{
    if s.len() == 0 {
        Seq::empty()
    } else if text::is_white(s.last()) {
        dense(s.drop_last())
    } else {
        dense(s.drop_last()).push(s.last())
    }
}

/// How far a subsequence match has come.
#[verifier::ext_equal]
pub struct Hits {
    pub score: int,
    pub first: Option<int>,
    pub last: Option<int>,
    /// What is still to be found.
    pub left: Seq<char>,
}

impl Hits {
    pub open spec fn start(query: Seq<char>) -> Hits {
        Hits { score: 0, first: None, last: None, left: query }
    }

    /// Look at one more character. Each hit counts, and one right behind
    /// another counts more.
    pub open spec fn step(self, i: int, c: char) -> Hits {
        if self.left.len() > 0 && c == self.left[0] {
            let adjacency = if self.last == Some(i - 1) {
                15int
            } else {
                0
            };
            Hits {
                score: sat(sat(self.score + 10) + adjacency),
                first: if self.first is Some {
                    self.first
                } else {
                    Some(i)
                },
                last: Some(i),
                left: self.left.skip(1),
            }
        } else {
            self
        }
    }

    pub open spec fn over(query: Seq<char>, c: Seq<char>) -> Hits
        decreases c.len(),
    {
        if c.len() == 0 {
            Hits::start(query)
        } else {
            Hits::over(query, c.drop_last()).step(c.len() - 1, c.last())
        }
    }
}

/// The quality of a subsequence match: hits less a mild penalty for a late
/// start.
pub open spec fn fuzzy_spec(q: Seq<char>, c: Seq<char>) -> Option<int> {
    if q.len() == 0 {
        Some(0)
    } else {
        let h = Hits::over(dense(q), c);
        let start = match h.first {
            Some(i) => i,
            None => 0,
        };
        if h.left.len() > 0 {
            None
        } else {
            Some(
                sat(
                    h.score - if start < 20 {
                        start
                    } else {
                        20
                    },
                ),
            )
        }
    }
}

/// The quality of one segment's match.
pub open spec fn segment_spec(style: Completion, q: Seq<char>, c: Seq<char>) -> Option<int> {
    match style {
        Completion::Prefix => if q.is_prefix_of(c) {
            Some(0)
        } else {
            None
        },
        Completion::Substring => if text::contains_spec(c, q) {
            Some(0)
        } else {
            None
        },
        Completion::Fuzzy => fuzzy_spec(q, c),
    }
}

/// Segments against segments, each against the one in its place.
pub open spec fn anchored_spec(qs: Seq<Seq<char>>, cs: Seq<Seq<char>>) -> bool {
    qs.len() <= cs.len() && forall|i: int|
        0 <= i < qs.len() ==> (#[trigger] qs[i]).is_prefix_of(cs[i])
}

/// Segments against segments in order, gaps allowed, earliest match first.
pub open spec fn gapped_spec(
    style: Completion,
    qs: Seq<Seq<char>>,
    cs: Seq<Seq<char>>,
    score: int,
) -> Option<int>
    decreases cs.len(),
{
    if qs.len() == 0 {
        Some(score)
    } else if cs.len() == 0 {
        None
    } else {
        match segment_spec(style, qs[0], cs[0]) {
            Some(s) => gapped_spec(style, qs.skip(1), cs.skip(1), sat(score + s)),
            None => gapped_spec(style, qs, cs.skip(1), score),
        }
    }
}

/// The quality of an account name's match.
pub open spec fn account_spec(style: Completion, q: Seq<char>, c: Seq<char>) -> Option<int> {
    let qs = text::split_spec(q, CharClass::Is(':'));
    let cs = text::split_spec(c, CharClass::Is(':'));
    if style == Completion::Prefix {
        if anchored_spec(qs, cs) {
            Some(0)
        } else {
            None
        }
    } else {
        gapped_spec(style, qs, cs, 0)
    }
}

/// The quality of a match, whatever the case.
pub open spec fn quality_spec(
    style: Completion,
    shape: Shape,
    query: Seq<char>,
    candidate: Seq<char>,
) -> Option<int> {
    let q = text::lowercase(query);
    let c = text::lowercase(candidate);
    match shape {
        Shape::Plain => segment_spec(style, q, c),
        Shape::Account => account_spec(style, q, c),
    }
}

pub open spec fn opt_int(o: Option<i64>) -> Option<int> {
    match o {
        Some(n) => Some(n as int),
        None => None,
    }
}

/// A text without its white space.
fn squeeze(s: &str) -> (r: Vec<char>)
    ensures
        r@ == dense(s@),
{
    let v = text::chars(s);
    let mut out: Vec<char> = Vec::new();
    let mut i: usize = 0;
    assert(s@.take(0) =~= Seq::empty());
    while i < v.len()
        invariant
            i <= v@.len(),
            v@ == s@,
            out@ == dense(s@.take(i as int)),
        decreases v@.len() - i,
    {
        assert(s@.take(i + 1).drop_last() =~= s@.take(i as int));
        assert(s@.take(i + 1).last() == v@[i as int]);
        if !v[i].is_whitespace() {
            out.push(v[i]);
        }
        i = i + 1;
    }
    assert(s@.take(v@.len() as int) =~= s@);
    out
}

/// Subsequence match within one segment; quality favours contiguity and
/// early matches.
fn fuzzy_quality(query: &str, candidate: &str) -> (r: Option<i64>)
    ensures
        opt_int(r) == fuzzy_spec(query@, candidate@),
{
    if query.is_empty() {
        return Some(0);
    }
    let want = squeeze(query);
    let ghost q = want@;
    let c = text::chars(candidate);
    let mut score: i64 = 0;
    let mut first: Option<usize> = None;
    let mut last: Option<usize> = None;
    let mut found: usize = 0;
    let mut i: usize = 0;
    let ghost mut h = Hits::start(q);
    assert(candidate@.take(0) =~= Seq::empty());
    assert(q.skip(0) =~= q);
    while i < c.len()
        invariant
            i <= c@.len(),
            c@ == candidate@,
            q == want@,
            found <= want@.len(),
            h == Hits::over(q, candidate@.take(i as int)),
            h.left == q.skip(found as int),
            h.score == score,
            h.first == (match first {
                Some(n) => Some(n as int),
                None => None,
            }),
            h.last == (match last {
                Some(n) => Some(n as int),
                None => None,
            }),
        decreases c@.len() - i,
    {
        assert(candidate@.take(i + 1).drop_last() =~= candidate@.take(i as int));
        assert(candidate@.take(i + 1).last() == c@[i as int]);
        proof {
            h = h.step(i as int, c@[i as int]);
        }
        if found < want.len() && c[i] == want[found] {
            // Contiguity dominates; an early start is a mild tie-break.
            let adjacency: i64 = match last {
                Some(prev) => if i > 0 && prev == i - 1 {
                    15
                } else {
                    0
                },
                None => 0,
            };
            score = plus(plus(score, 10), adjacency);
            if first.is_none() {
                first = Some(i);
            }
            last = Some(i);
            assert(q.skip(found as int).skip(1) =~= q.skip(found + 1));
            found = found + 1;
        }
        i = i + 1;
    }
    assert(candidate@.take(c@.len() as int) =~= candidate@);
    if found < want.len() {
        return None;
    }
    let start: i64 = match first {
        Some(n) => if n < 20 {
            n as i64
        } else {
            20
        },
        None => 0,
    };
    Some(plus(score, -start))
}

/// One query segment against one candidate segment — the whole string, for
/// [`Shape::Plain`].
fn segment_quality(style: Completion, q: &str, c: &str) -> (r: Option<i64>)
    ensures
        opt_int(r) == segment_spec(style, q@, c@),
{
    match style {
        Completion::Prefix => if text::starts_with(c, q) {
            Some(0)
        } else {
            None
        },
        Completion::Substring => if text::contains(c, q) {
            Some(0)
        } else {
            None
        },
        Completion::Fuzzy => fuzzy_quality(q, c),
    }
}

/// Segment-wise matching; see the module docs for why `prefix` is anchored
/// and the other two are not.
fn account_quality(style: Completion, q: &str, c: &str) -> (r: Option<i64>)
    ensures
        opt_int(r) == account_spec(style, q@, c@),
{
    let qs = text::split(q, CharClass::Is(':'));
    let cs = text::split(c, CharClass::Is(':'));
    let ghost qv = text::strs(qs@);
    let ghost cv = text::strs(cs@);
    assert(qv.len() == qs@.len());
    assert(cv.len() == cs@.len());
    if style == Completion::Prefix {
        if qs.len() > cs.len() {
            return None;
        }
        let mut i: usize = 0;
        while i < qs.len()
            invariant
                i <= qs@.len(),
                qs@.len() <= cs@.len(),
                qv == text::strs(qs@),
                cv == text::strs(cs@),
                qv == text::split_spec(q@, CharClass::Is(':')),
                cv == text::split_spec(c@, CharClass::Is(':')),
                style == Completion::Prefix,
                forall|j: int| 0 <= j < i ==> (#[trigger] qv[j]).is_prefix_of(cv[j]),
            decreases qs@.len() - i,
        {
            assert(qv[i as int] == qs@[i as int]@);
            assert(cv[i as int] == cs@[i as int]@);
            if !text::starts_with(cs[i], qs[i]) {
                return None;
            }
            i = i + 1;
        }
        return Some(0);
    }
    // In order, gaps allowed, earliest match wins.

    let mut qi: usize = 0;
    let mut ci: usize = 0;
    let mut score: i64 = 0;
    assert(qv.skip(0) =~= qv);
    assert(cv.skip(0) =~= cv);
    while qi < qs.len() && ci < cs.len()
        invariant
            qi <= qs@.len(),
            ci <= cs@.len(),
            qv == text::strs(qs@),
            cv == text::strs(cs@),
            gapped_spec(style, qv, cv, 0) == gapped_spec(
                style,
                qv.skip(qi as int),
                cv.skip(ci as int),
                score as int,
            ),
        decreases cs@.len() - ci,
    {
        assert(qv.skip(qi as int)[0] == qs@[qi as int]@);
        assert(cv.skip(ci as int)[0] == cs@[ci as int]@);
        assert(cv.skip(ci as int).skip(1) =~= cv.skip(ci + 1));
        if let Some(s) = segment_quality(style, qs[qi], cs[ci]) {
            assert(qv.skip(qi as int).skip(1) =~= qv.skip(qi + 1));
            score = plus(score, s);
            qi = qi + 1;
        }
        ci = ci + 1;
    }
    if qi < qs.len() {
        None
    } else {
        Some(score)
    }
}

/// Whether `candidate` matches `query` under `style`, with a match quality
/// (higher is better; only `fuzzy` produces meaningful gradations).
#[must_use]
pub fn match_quality(style: Completion, shape: Shape, query: &str, candidate: &str) -> (r: Option<
    i64,
>)
    ensures
        opt_int(r) == quality_spec(style, shape, query@, candidate@),
{
    let q = text::to_lower(query);
    let c = text::to_lower(candidate);
    match shape {
        Shape::Plain => segment_quality(style, q.as_str(), c.as_str()),
        Shape::Account => account_quality(style, q.as_str(), c.as_str()),
    }
}

// ---- filtering ----

/// A candidate that matches, and how well.
#[verifier::ext_equal]
pub struct Hit {
    pub quality: int,
    pub text: Seq<char>,
}

/// The candidates that match, in the order of the pool.
pub open spec fn hits_spec(
    style: Completion,
    shape: Shape,
    query: Seq<char>,
    pool: Seq<Seq<char>>,
) -> Seq<Hit>
    decreases pool.len(),
{
    if pool.len() == 0 {
        Seq::empty()
    } else {
        let before = hits_spec(style, shape, query, pool.drop_last());
        match quality_spec(style, shape, query, pool.last()) {
            Some(quality) => before.push(Hit { quality, text: pool.last() }),
            None => before,
        }
    }
}

/// How many hits at the start are at least as good.
pub open spec fn slot_for(sorted: Seq<Hit>, quality: int) -> int
    decreases sorted.len(),
{
    if sorted.len() == 0 || sorted[0].quality < quality {
        0
    } else {
        1 + slot_for(sorted.skip(1), quality)
    }
}

/// Hits with the best first; equally good ones keep their order.
pub open spec fn by_quality(hits: Seq<Hit>) -> Seq<Hit>
    decreases hits.len(),
{
    if hits.len() == 0 {
        Seq::empty()
    } else {
        let sorted = by_quality(hits.drop_last());
        sorted.insert(slot_for(sorted, hits.last().quality), hits.last())
    }
}

/// The candidates that match a query, ranked.
pub open spec fn filter_ranked_spec(
    style: Completion,
    shape: Shape,
    query: Seq<char>,
    pool: Seq<Seq<char>>,
) -> Seq<Seq<char>> {
    let hits = hits_spec(style, shape, query, pool);
    (if style == Completion::Fuzzy {
        by_quality(hits)
    } else {
        hits
    }).map_values(|h: Hit| h.text)
}

proof fn lemma_slot(sorted: Seq<Hit>, quality: int)
    ensures
        0 <= slot_for(sorted, quality) <= sorted.len(),
    decreases sorted.len(),
{
    if sorted.len() > 0 {
        lemma_slot(sorted.skip(1), quality);
    }
}

spec fn hits_view(v: Seq<(i64, &str)>) -> Seq<Hit> {
    v.map_values(|h: (i64, &str)| Hit { quality: h.0 as int, text: h.1@ })
}

/// The slot of a hit among sorted ones.
fn slot(sorted: &[(i64, &str)], quality: i64) -> (r: usize)
    ensures
        r == slot_for(hits_view(sorted@), quality as int),
        r <= sorted@.len(),
{
    let ghost all = hits_view(sorted@);
    let mut i: usize = 0;
    assert(all.skip(0) =~= all);
    while i < sorted.len() && sorted[i].0 >= quality
        invariant
            i <= sorted@.len(),
            all == hits_view(sorted@),
            slot_for(all, quality as int) == i + slot_for(all.skip(i as int), quality as int),
        decreases sorted@.len() - i,
    {
        assert(all.skip(i as int)[0].quality == sorted@[i as int].0);
        assert(all.skip(i as int).skip(1) =~= all.skip(i + 1));
        i = i + 1;
    }
    assert(i < sorted@.len() ==> all.skip(i as int)[0].quality == sorted@[i as int].0);
    i
}

/// Filter and order `ranked` (already frecency-ordered, best first) for
/// `query`.
#[must_use]
pub fn filter_ranked<'a>(
    style: Completion,
    shape: Shape,
    query: &str,
    ranked: &[&'a str],
) -> (r: Vec<&'a str>)
    ensures
        text::strs(r@) == filter_ranked_spec(style, shape, query@, text::strs(ranked@)),
{
    let ghost pool = text::strs(ranked@);
    let fuzzy = style == Completion::Fuzzy;
    let mut hits: Vec<(i64, &'a str)> = Vec::new();
    let ghost mut plain = Seq::<Hit>::empty();
    let mut i: usize = 0;
    assert(pool.take(0) =~= Seq::empty());
    assert(hits_view(hits@) =~= Seq::empty());
    while i < ranked.len()
        invariant
            i <= ranked@.len(),
            pool == text::strs(ranked@),
            fuzzy == (style == Completion::Fuzzy),
            plain == hits_spec(style, shape, query@, pool.take(i as int)),
            hits_view(hits@) == (if fuzzy {
                by_quality(plain)
            } else {
                plain
            }),
        decreases ranked@.len() - i,
    {
        let c: &'a str = ranked[i];
        assert(pool.take(i + 1).drop_last() =~= pool.take(i as int));
        assert(pool.take(i + 1).last() == c@);
        if let Some(q) = match_quality(style, shape, query, c) {
            let ghost before = hits_view(hits@);
            let ghost hit = Hit { quality: q as int, text: c@ };
            assert(plain.push(hit).drop_last() =~= plain);
            proof {
                plain = plain.push(hit);
            }
            if fuzzy {
                let at: usize = slot(hits.as_slice(), q);
                hits.insert(at, (q, c));
                assert(hits_view(hits@) =~= before.insert(at as int, hit));
            } else {
                hits.push((q, c));
                assert(hits_view(hits@) =~= before.push(hit));
            }
        }
        i = i + 1;
    }
    assert(pool.take(pool.len() as int) =~= pool);
    let mut out: Vec<&'a str> = Vec::new();
    let ghost want = hits_view(hits@).map_values(|h: Hit| h.text);
    let mut j: usize = 0;
    while j < hits.len()
        invariant
            j <= hits@.len(),
            want == hits_view(hits@).map_values(|h: Hit| h.text),
            text::strs(out@) =~= want.take(j as int),
        decreases hits@.len() - j,
    {
        let ghost before = text::strs(out@);
        let c: &'a str = hits[j].1;
        out.push(c);
        assert(text::strs(out@) =~= before.push(c@));
        assert(want[j as int] == c@);
        j = j + 1;
    }
    assert(want.take(want.len() as int) =~= want);
    out
}

// ---- what Tab inserts ----

/// What two texts begin with.
pub open spec fn shared(a: Seq<char>, b: Seq<char>) -> Seq<char>
    decreases a.len(),
{
    if a.len() > 0 && b.len() > 0 && a[0] == b[0] {
        seq![a[0]] + shared(a.skip(1), b.skip(1))
    } else {
        Seq::empty()
    }
}

/// What all of some texts begin with.
pub open spec fn common_prefix_spec(items: Seq<Seq<char>>) -> Seq<char>
    decreases items.len(),
{
    if items.len() == 0 {
        Seq::empty()
    } else if items.len() == 1 {
        items[0]
    } else {
        shared(common_prefix_spec(items.drop_last()), items.last())
    }
}

/// Whether a query finds the same candidates as another.
pub open spec fn finds_the_same(
    style: Completion,
    shape: Shape,
    a: Seq<char>,
    b: Seq<char>,
    pool: Seq<Seq<char>>,
) -> bool {
    filter_ranked_spec(style, shape, a, pool).to_multiset() == filter_ranked_spec(
        style,
        shape,
        b,
        pool,
    ).to_multiset()
}

/// The longest text of at most `n` characters that stands at the start of
/// `full`, is longer than the query and finds the same candidates.
pub open spec fn longest_same(
    style: Completion,
    shape: Shape,
    query: Seq<char>,
    pool: Seq<Seq<char>>,
    full: Seq<char>,
    n: int,
) -> Option<Seq<char>>
    decreases n,
{
    if n <= query.len() {
        None
    } else if finds_the_same(style, shape, full.take(n), query, pool) {
        Some(full.take(n))
    } else {
        longest_same(style, shape, query, pool, full, n - 1)
    }
}

/// The text Tab inserts.
pub open spec fn complete_spec(
    style: Completion,
    shape: Shape,
    query: Seq<char>,
    pool: Seq<Seq<char>>,
) -> Option<Seq<char>> {
    let found = filter_ranked_spec(style, shape, query, pool);
    if query.len() == 0 || found.len() == 0 {
        None
    } else {
        let full = common_prefix_spec(found);
        longest_same(style, shape, query, pool, full, full.len() as int)
    }
}

/// How many characters two texts share at the start.
fn shared_len(a: &str, b: &str) -> (r: usize)
    ensures
        r <= a@.len(),
        a@.take(r as int) == shared(a@, b@),
{
    let n: usize = a.unicode_len();
    let m: usize = b.unicode_len();
    let mut i: usize = 0;
    assert(a@.skip(0) =~= a@);
    assert(b@.skip(0) =~= b@);
    assert(a@.take(0) + shared(a@, b@) =~= shared(a@, b@));
    while i < n && i < m && a.get_char(i) == b.get_char(i)
        invariant
            n == a@.len(),
            m == b@.len(),
            i <= n,
            i <= m,
            shared(a@, b@) == a@.take(i as int) + shared(a@.skip(i as int), b@.skip(i as int)),
        decreases n - i,
    {
        let ghost ra = a@.skip(i as int);
        let ghost rb = b@.skip(i as int);
        assert(ra.skip(1) =~= a@.skip(i + 1));
        assert(rb.skip(1) =~= b@.skip(i + 1));
        assert(a@.take(i as int) + (seq![ra[0]] + shared(ra.skip(1), rb.skip(1))) =~= a@.take(
            i + 1,
        ) + shared(ra.skip(1), rb.skip(1)));
        i = i + 1;
    }
    assert(a@.take(i as int) =~= a@.take(i as int) + shared(a@.skip(i as int), b@.skip(i as int)));
    i
}

/// The longest common character prefix of `items`.
fn common_prefix<'a>(items: &[&'a str]) -> (r: &'a str)
    requires
        items@.len() > 0,
    ensures
        r@ == common_prefix_spec(text::strs(items@)),
{
    let ghost all = text::strs(items@);
    let mut out: &'a str = items[0];
    let mut i: usize = 1;
    assert(all.take(1)[0] == out@);
    while i < items.len()
        invariant
            1 <= i <= items@.len(),
            all == text::strs(items@),
            out@ == common_prefix_spec(all.take(i as int)),
        decreases items@.len() - i,
    {
        assert(all.take(i + 1).drop_last() =~= all.take(i as int));
        assert(all.take(i + 1).last() == items@[i as int]@);
        let n: usize = shared_len(out, items[i]);
        out = text::prefix(out, n);
        i = i + 1;
    }
    assert(all.take(all.len() as int) =~= all);
    out
}

/// Lists that share a text hold the same texts if they do without it.
proof fn lemma_take_out(a: Seq<Seq<char>>, b: Seq<Seq<char>>, j: int)
    requires
        a.len() > 0,
        0 <= j < b.len(),
        b[j] == a[0],
    ensures
        (a.to_multiset() == b.to_multiset()) == (a.remove(0).to_multiset() == b.remove(
            j,
        ).to_multiset()),
{
    broadcast use vstd::seq_lib::group_to_multiset_ensures;

    let x = a[0];
    let am = a.to_multiset();
    let bm = b.to_multiset();
    assert(a.contains(x) && b.contains(x));
    assert(am.count(x) > 0 && bm.count(x) > 0);
    if am.remove(x) == bm.remove(x) {
        assert(am =~= am.remove(x).insert(x));
        assert(bm =~= bm.remove(x).insert(x));
    }
}

/// Lists do not hold the same texts if one lacks the first of the other.
proof fn lemma_absent(a: Seq<Seq<char>>, b: Seq<Seq<char>>)
    requires
        a.len() > 0,
        !b.contains(a[0]),
    ensures
        a.to_multiset() != b.to_multiset(),
{
    broadcast use vstd::seq_lib::group_to_multiset_ensures;

    assert(a.contains(a[0]));
    assert(a.to_multiset().count(a[0]) > 0);
    assert(b.to_multiset().count(a[0]) == 0);
}

/// Whether two lists hold the same texts, each as often: `fuzzy` reorders by
/// score, so the same candidates can come back in a different order for a
/// different query.
fn same_set(a: &[&str], b: &[&str]) -> (r: bool)
    ensures
        r == (text::strs(a@).to_multiset() == text::strs(b@).to_multiset()),
{
    broadcast use vstd::seq_lib::group_to_multiset_ensures;

    let ghost av = text::strs(a@);
    let ghost bv = text::strs(b@);
    if a.len() != b.len() {
        assert(av.to_multiset().len() != bv.to_multiset().len());
        return false;
    }
    let mut rest: Vec<&str> = Vec::new();
    let mut k: usize = 0;
    while k < b.len()
        invariant
            k <= b@.len(),
            text::strs(rest@) =~= text::strs(b@).take(k as int),
        decreases b@.len() - k,
    {
        let ghost before = text::strs(rest@);
        rest.push(b[k]);
        assert(text::strs(rest@) =~= before.push(b@[k as int]@));
        k = k + 1;
    }
    assert(text::strs(rest@) =~= bv);
    assert(av.skip(0) =~= av);
    let mut i: usize = 0;
    while i < a.len()
        invariant
            i <= a@.len(),
            av == text::strs(a@),
            bv == text::strs(b@),
            rest@.len() == a@.len() - i,
            (av.to_multiset() == bv.to_multiset()) == (av.skip(i as int).to_multiset()
                == text::strs(rest@).to_multiset()),
        decreases a@.len() - i,
    {
        let ghost tail = av.skip(i as int);
        let ghost rv = text::strs(rest@);
        assert(tail[0] == a@[i as int]@);
        let mut j: usize = 0;
        while j < rest.len() && !text::same(rest[j], a[i])
            invariant
                i < a@.len(),
                j <= rest@.len(),
                rv == text::strs(rest@),
                forall|m: int| 0 <= m < j ==> #[trigger] rv[m] != a@[i as int]@,
            decreases rest@.len() - j,
        {
            assert(rv[j as int] == rest@[j as int]@);
            j = j + 1;
        }
        if j == rest.len() {
            proof {
                lemma_absent(tail, rv);
            }
            return false;
        }
        let _ = rest.remove(j);
        assert(rv[j as int] == tail[0]);
        assert(text::strs(rest@) =~= rv.remove(j as int));
        assert(av.skip(i + 1) =~= tail.remove(0));
        proof {
            lemma_take_out(tail, rv, j as int);
        }
        i = i + 1;
    }
    assert(av.skip(i as int) =~= Seq::empty());
    assert(text::strs(rest@) =~= Seq::empty());
    true
}

/// The text Tab should insert for `query` over `pool`, or `None` when there
/// is nothing to add.
///
/// The insertion is the longest prefix of the matches' common prefix that is
/// both longer than what is typed and still matches exactly the same
/// candidates. That second condition is the important one: completing must
/// never widen the match set, which would silently drop a constraint the
/// user typed (`bank:ing` may resolve to `assets:bank:` only while nothing
/// else lives under `assets:bank`). When no prefix qualifies the caller
/// falls back to opening the menu.
///
/// An empty query never completes — an empty buffer opens the field's whole
/// candidate list instead, which doubles as history.
#[must_use]
pub fn complete(style: Completion, shape: Shape, query: &str, pool: &[&str]) -> (r: Option<String>)
    ensures
        text::opt_text(r) == complete_spec(style, shape, query@, text::strs(pool@)),
{
    if query.is_empty() {
        return None;
    }
    let matches = filter_ranked(style, shape, query, pool);
    assert(text::strs(matches@).len() == matches@.len());
    if matches.len() == 0 {
        return None;
    }
    let typed: usize = query.unicode_len();
    let full = common_prefix(matches.as_slice());
    let mut n: usize = full.unicode_len();
    while n > typed
        invariant
            n <= full@.len(),
            typed == query@.len(),
            text::strs(matches@) == filter_ranked_spec(style, shape, query@, text::strs(pool@)),
            complete_spec(style, shape, query@, text::strs(pool@)) == longest_same(
                style,
                shape,
                query@,
                text::strs(pool@),
                full@,
                n as int,
            ),
        decreases n,
    {
        let attempt = text::prefix(full, n);
        let again = filter_ranked(style, shape, attempt, pool);
        if same_set(again.as_slice(), matches.as_slice()) {
            return Some(attempt.to_owned());
        }
        n = n - 1;
    }
    None
}

// ---- what completion promises ----

proof fn lemma_longest(
    style: Completion,
    shape: Shape,
    query: Seq<char>,
    pool: Seq<Seq<char>>,
    full: Seq<char>,
    n: int,
)
    requires
        n <= full.len(),
    ensures
        longest_same(style, shape, query, pool, full, n) matches Some(c) ==> finds_the_same(
            style,
            shape,
            c,
            query,
            pool,
        ) && c.len() > query.len() && c.is_prefix_of(full),
    decreases n,
{
    if n > query.len() {
        lemma_longest(style, shape, query, pool, full, n - 1);
    }
}

proof fn lemma_shared(a: Seq<char>, b: Seq<char>)
    ensures
        shared(a, b).is_prefix_of(a),
        shared(a, b).is_prefix_of(b),
    decreases a.len(),
{
    if a.len() > 0 && b.len() > 0 && a[0] == b[0] {
        lemma_shared(a.skip(1), b.skip(1));
        let s = shared(a.skip(1), b.skip(1));
        assert(seq![a[0]] + s =~= a.take(s.len() as int + 1)) by {
            assert(s =~= a.skip(1).take(s.len() as int));
        }
        assert(seq![a[0]] + s =~= b.take(s.len() as int + 1)) by {
            assert(s =~= b.skip(1).take(s.len() as int));
        }
    }
}

proof fn lemma_common(items: Seq<Seq<char>>, i: int)
    requires
        0 <= i < items.len(),
    ensures
        common_prefix_spec(items).is_prefix_of(items[i]),
    decreases items.len(),
{
    if items.len() > 1 {
        let before = common_prefix_spec(items.drop_last());
        lemma_shared(before, items.last());
        if i < items.len() - 1 {
            lemma_common(items.drop_last(), i);
            assert(items.drop_last()[i] == items[i]);
            assert(common_prefix_spec(items) =~= items[i].take(
                common_prefix_spec(items).len() as int,
            )) by {
                assert(before =~= items[i].take(before.len() as int));
                assert(common_prefix_spec(items) =~= before.take(
                    common_prefix_spec(items).len() as int,
                ));
            }
        }
    }
}

/// Completing never widens or narrows what is matched, always adds text, and
/// adds only what every match begins with.
pub proof fn completing_keeps_the_matches(
    style: Completion,
    shape: Shape,
    query: Seq<char>,
    pool: Seq<Seq<char>>,
)
    ensures
        complete_spec(style, shape, query, pool) matches Some(c) ==> {
            &&& finds_the_same(style, shape, c, query, pool)
            &&& c.len() > query.len()
            &&& forall|i: int|
                0 <= i < filter_ranked_spec(style, shape, query, pool).len() ==> c.is_prefix_of(
                    #[trigger] filter_ranked_spec(style, shape, query, pool)[i],
                )
        },
{
    if let Some(c) = complete_spec(style, shape, query, pool) {
        let found = filter_ranked_spec(style, shape, query, pool);
        let full = common_prefix_spec(found);
        lemma_longest(style, shape, query, pool, full, full.len() as int);
        assert forall|i: int| 0 <= i < found.len() implies c.is_prefix_of(
            #[trigger] found[i],
        ) by {
            lemma_common(found, i);
            assert(full =~= found[i].take(full.len() as int));
            assert(c =~= full.take(c.len() as int));
            assert(c =~= found[i].take(c.len() as int));
        }
    }
}

proof fn lemma_sorted(hits: Seq<Hit>)
    ensures
        by_quality(hits).to_multiset() == hits.to_multiset(),
        forall|i: int, j: int|
            0 <= i < j < by_quality(hits).len() ==> (#[trigger] by_quality(hits)[i]).quality >= (
            #[trigger] by_quality(hits)[j]).quality,
    decreases hits.len(),
{
    broadcast use vstd::seq_lib::group_to_multiset_ensures;

    if hits.len() > 0 {
        let before = by_quality(hits.drop_last());
        let x = hits.last();
        lemma_sorted(hits.drop_last());
        let at = slot_for(before, x.quality);
        lemma_slot(before, x.quality);
        lemma_slot_parts(before, x.quality);
        assert(hits =~= hits.drop_last().push(x));
        before.to_multiset_ensures();
        vstd::seq_lib::to_multiset_insert(before, at, x);
        assert(by_quality(hits) =~= before.insert(at, x));
    } else {
        assert(hits =~= by_quality(hits));
    }
}

proof fn lemma_slot_parts(sorted: Seq<Hit>, quality: int)
    ensures
        0 <= slot_for(sorted, quality) <= sorted.len(),
        forall|i: int|
            0 <= i < slot_for(sorted, quality) ==> (#[trigger] sorted[i]).quality >= quality,
        slot_for(sorted, quality) < sorted.len() ==> sorted[slot_for(
            sorted,
            quality,
        )].quality < quality,
    decreases sorted.len(),
{
    if sorted.len() > 0 && sorted[0].quality >= quality {
        lemma_slot_parts(sorted.skip(1), quality);
        let k = slot_for(sorted.skip(1), quality);
        assert forall|i: int| 0 <= i < k + 1 implies (
        #[trigger] sorted[i]).quality >= quality by {
            if i > 0 {
                assert(sorted.skip(1)[i - 1] == sorted[i]);
            }
        }
        if k < sorted.skip(1).len() {
            assert(sorted.skip(1)[k] == sorted[k + 1]);
        }
    }
}

/// Fuzzy ranking reorders the matches and loses none of them: the best match
/// comes first, and each match is listed as often as the pool lists it.
pub proof fn ranking_orders_by_quality(hits: Seq<Hit>)
    ensures
        by_quality(hits).to_multiset() == hits.to_multiset(),
        forall|i: int, j: int|
            0 <= i < j < by_quality(hits).len() ==> (#[trigger] by_quality(hits)[i]).quality >= (
            #[trigger] by_quality(hits)[j]).quality,
{
    lemma_sorted(hits);
}

} // verus!
