//! Edit distance.

use vstd::prelude::*;
use vstd::string::*;
use crate::text;

verus! {

pub open spec fn least(a: nat, b: nat) -> nat {
    if a < b {
        a
    } else {
        b
    }
}

/// The least number of characters to delete, insert or replace to turn one
/// text into another.
pub open spec fn levenshtein_spec(a: Seq<char>, b: Seq<char>) -> nat
    decreases a.len() + b.len(),
{
    if a.len() == 0 {
        b.len()
    } else if b.len() == 0 {
        a.len()
    } else {
        least(
            least(
                levenshtein_spec(a.drop_last(), b) + 1,
                levenshtein_spec(a, b.drop_last()) + 1,
            ),
            levenshtein_spec(a.drop_last(), b.drop_last()) + (if a.last() == b.last() {
                0nat
            } else {
                1nat
            }),
        )
    }
}

/// No text is further from another than the longer of them is long.
proof fn lemma_distance_bound(a: Seq<char>, b: Seq<char>)
    ensures
        levenshtein_spec(a, b) <= a.len() || levenshtein_spec(a, b) <= b.len(),
    decreases a.len() + b.len(),
{
    if a.len() > 0 && b.len() > 0 {
        lemma_distance_bound(a.drop_last(), b.drop_last());
    }
}

/// A text is no distance from itself, and the distance is the same both ways.
pub proof fn distance_is_symmetric(a: Seq<char>, b: Seq<char>)
    ensures
        levenshtein_spec(a, a) == 0,
        levenshtein_spec(a, b) == levenshtein_spec(b, a),
        levenshtein_spec(a, b) == 0 ==> a == b,
    decreases a.len() + b.len(),
{
    lemma_no_distance(a);
    lemma_symmetric(a, b);
    lemma_zero(a, b);
}

proof fn lemma_no_distance(a: Seq<char>)
    ensures
        levenshtein_spec(a, a) == 0,
    decreases a.len(),
{
    if a.len() > 0 {
        lemma_no_distance(a.drop_last());
    }
}

proof fn lemma_symmetric(a: Seq<char>, b: Seq<char>)
    ensures
        levenshtein_spec(a, b) == levenshtein_spec(b, a),
    decreases a.len() + b.len(),
{
    if a.len() > 0 && b.len() > 0 {
        lemma_symmetric(a.drop_last(), b);
        lemma_symmetric(a, b.drop_last());
        lemma_symmetric(a.drop_last(), b.drop_last());
    }
}

proof fn lemma_zero(a: Seq<char>, b: Seq<char>)
    ensures
        levenshtein_spec(a, b) == 0 ==> a == b,
    decreases a.len() + b.len(),
{
    if a.len() > 0 && b.len() > 0 {
        lemma_zero(a.drop_last(), b.drop_last());
        if levenshtein_spec(a, b) == 0 {
            assert(a =~= a.drop_last().push(a.last()));
            assert(b =~= b.drop_last().push(b.last()));
        }
    } else if levenshtein_spec(a, b) == 0 {
        assert(a =~= b);
    }
}

/// The distance obeys the triangle inequality: no way round is shorter.
pub proof fn a_detour_is_no_shorter(a: Seq<char>, b: Seq<char>, c: Seq<char>)
    ensures
        levenshtein_spec(a, c) <= levenshtein_spec(a, b) + levenshtein_spec(b, c),
    decreases a.len() + b.len() + c.len(),
{
    if a.len() == 0 {
        lemma_longer(b, c);
    } else if c.len() == 0 {
        lemma_longer(b, a);
        lemma_symmetric(b, a);
    } else if b.len() == 0 {
        lemma_distance_bound(a, c);
    } else {
        let x = a.drop_last();
        let y = b.drop_last();
        let z = c.drop_last();
        a_detour_is_no_shorter(x, b, c);
        a_detour_is_no_shorter(a, b, z);
        a_detour_is_no_shorter(a, y, c);
        a_detour_is_no_shorter(a, y, z);
        a_detour_is_no_shorter(x, y, c);
        a_detour_is_no_shorter(x, y, z);
    }
}

/// A text is at least as far away as it is longer.
proof fn lemma_longer(a: Seq<char>, b: Seq<char>)
    ensures
        b.len() <= a.len() + levenshtein_spec(a, b),
    decreases a.len() + b.len(),
{
    if a.len() > 0 && b.len() > 0 {
        lemma_longer(a.drop_last(), b);
        lemma_longer(a, b.drop_last());
        lemma_longer(a.drop_last(), b.drop_last());
    }
}

// ---- edits ----

/// Whether one text becomes another by inserting a character at a place,
/// deleting the one there, or replacing it.
pub open spec fn is_edit(a: Seq<char>, b: Seq<char>, i: int, c: char) -> bool {
    ||| 0 <= i <= a.len() && b == a.insert(i, c)
    ||| 0 <= i < a.len() && b == a.remove(i)
    ||| 0 <= i < a.len() && b == a.update(i, c)
}

/// Whether one text becomes another by one edit.
pub open spec fn one_edit(a: Seq<char>, b: Seq<char>) -> bool {
    exists|i: int, c: char| is_edit(a, b, i, c)
}

/// Whether one text becomes another by a number of edits.
pub open spec fn edits(a: Seq<char>, b: Seq<char>, n: nat) -> bool
    decreases n,
{
    if n == 0 {
        a == b
    } else {
        exists|m: Seq<char>| #[trigger] one_edit(a, m) && edits(m, b, (n - 1) as nat)
    }
}

proof fn lemma_edits_first(a: Seq<char>, m: Seq<char>, b: Seq<char>, n: nat)
    requires
        one_edit(a, m),
        edits(m, b, n),
    ensures
        edits(a, b, n + 1),
{
    assert(one_edit(a, m) && edits(m, b, ((n + 1) - 1) as nat));
}

proof fn lemma_edits_last(a: Seq<char>, b: Seq<char>, c: Seq<char>, n: nat)
    requires
        edits(a, b, n),
        one_edit(b, c),
    ensures
        edits(a, c, n + 1),
    decreases n,
{
    if n == 0 {
        assert(edits(c, c, 0));
        lemma_edits_first(a, c, c, 0);
    } else {
        let m = choose|m: Seq<char>| #[trigger] one_edit(a, m) && edits(m, b, (n - 1) as nat);
        lemma_edits_last(m, b, c, (n - 1) as nat);
        lemma_edits_first(a, m, c, n);
    }
}

/// Edits leave alone what follows.
proof fn lemma_edits_before(a: Seq<char>, b: Seq<char>, x: char, n: nat)
    requires
        edits(a, b, n),
    ensures
        edits(a.push(x), b.push(x), n),
    decreases n,
{
    if n > 0 {
        let m = choose|m: Seq<char>| #[trigger] one_edit(a, m) && edits(m, b, (n - 1) as nat);
        lemma_edits_before(m, b, x, (n - 1) as nat);
        let (i, c) = choose|i: int, c: char| is_edit(a, m, i, c);
        assert(is_edit(a.push(x), m.push(x), i, c)) by {
            if 0 <= i <= a.len() && m == a.insert(i, c) {
                assert(m.push(x) =~= a.push(x).insert(i, c));
            } else if 0 <= i < a.len() && m == a.remove(i) {
                assert(m.push(x) =~= a.push(x).remove(i));
            } else {
                assert(m.push(x) =~= a.push(x).update(i, c));
            }
        }
        lemma_edits_first(a.push(x), m.push(x), b.push(x), (n - 1) as nat);
    }
}

proof fn lemma_last_deleted(a: Seq<char>)
    requires
        a.len() > 0,
    ensures
        one_edit(a, a.drop_last()),
        one_edit(a.drop_last(), a),
{
    let n = a.len() - 1;
    assert(a.drop_last() =~= a.remove(n));
    assert(is_edit(a, a.drop_last(), n, a.last()));
    assert(a =~= a.drop_last().insert(n, a.last()));
    assert(is_edit(a.drop_last(), a, n, a.last()));
}

/// As many edits as the distance are enough.
proof fn lemma_enough(a: Seq<char>, b: Seq<char>)
    ensures
        edits(a, b, levenshtein_spec(a, b)),
    decreases a.len() + b.len(),
{
    if a.len() == 0 && b.len() == 0 {
        assert(a =~= b);
    } else if a.len() == 0 {
        let y = b.drop_last();
        lemma_enough(a, y);
        lemma_last_deleted(b);
        lemma_edits_last(a, y, b, levenshtein_spec(a, y));
    } else if b.len() == 0 {
        let x = a.drop_last();
        lemma_enough(x, b);
        lemma_last_deleted(a);
        lemma_edits_first(a, x, b, levenshtein_spec(x, b));
    } else {
        let x = a.drop_last();
        let y = b.drop_last();
        let d = levenshtein_spec(a, b);
        lemma_last_deleted(a);
        lemma_last_deleted(b);
        if d == levenshtein_spec(x, b) + 1 {
            lemma_enough(x, b);
            lemma_edits_first(a, x, b, levenshtein_spec(x, b));
        } else if d == levenshtein_spec(a, y) + 1 {
            lemma_enough(a, y);
            lemma_edits_last(a, y, b, levenshtein_spec(a, y));
        } else {
            let k = levenshtein_spec(x, y);
            lemma_enough(x, y);
            lemma_edits_before(x, y, b.last(), k);
            assert(y.push(b.last()) =~= b);
            assert(x.push(a.last()) =~= a);
            if a.last() != b.last() {
                let m = x.push(b.last());
                assert(m =~= a.update(a.len() - 1, b.last()));
                assert(is_edit(a, m, a.len() - 1, b.last()));
                lemma_edits_first(a, m, b, k);
            }
        }
    }
}

/// What follows both texts adds nothing to their distance.
proof fn lemma_suffix(a: Seq<char>, b: Seq<char>, s: Seq<char>)
    ensures
        levenshtein_spec(a + s, b + s) <= levenshtein_spec(a, b),
    decreases s.len(),
{
    if s.len() == 0 {
        assert(a + s =~= a);
        assert(b + s =~= b);
    } else {
        let t = s.drop_last();
        lemma_suffix(a, b, t);
        assert((a + s).drop_last() =~= a + t);
        assert((b + s).drop_last() =~= b + t);
        assert((a + s).last() == s.last() && (b + s).last() == s.last());
    }
}

/// An edit goes no further than one.
proof fn lemma_edit_distance(a: Seq<char>, b: Seq<char>, i: int, c: char)
    requires
        is_edit(a, b, i, c),
    ensures
        levenshtein_spec(a, b) <= 1,
{
    let p = a.take(i);
    let q = p.push(c);
    lemma_no_distance(p);
    assert(q.drop_last() =~= p);
    assert(levenshtein_spec(p, q) <= 1 && levenshtein_spec(q, p) <= 1) by {
        lemma_symmetric(p, q);
        if p.len() > 0 {
            assert(levenshtein_spec(p, q) <= levenshtein_spec(p, q.drop_last()) + 1);
        }
    }
    if 0 <= i <= a.len() && b == a.insert(i, c) {
        let s = a.skip(i);
        lemma_suffix(p, q, s);
        assert(p + s =~= a);
        assert(q + s =~= b);
    } else {
        let s = a.skip(i + 1);
        let r = p.push(a[i]);
        assert(r.drop_last() =~= p);
        assert(levenshtein_spec(r, p) <= 1) by {
            if p.len() > 0 {
                assert(levenshtein_spec(r, p) <= levenshtein_spec(r.drop_last(), p) + 1);
            }
        }
        assert(r + s =~= a);
        if b == a.remove(i) {
            lemma_suffix(r, p, s);
            assert(p + s =~= b);
        } else {
            assert(levenshtein_spec(r, q) <= levenshtein_spec(p, p) + 1);
            lemma_suffix(r, q, s);
            assert(q + s =~= b);
        }
    }
}

proof fn lemma_needed(a: Seq<char>, b: Seq<char>, n: nat)
    requires
        edits(a, b, n),
    ensures
        levenshtein_spec(a, b) <= n,
    decreases n,
{
    if n == 0 {
        lemma_no_distance(a);
    } else {
        let m = choose|m: Seq<char>| #[trigger] one_edit(a, m) && edits(m, b, (n - 1) as nat);
        let (i, c) = choose|i: int, c: char| is_edit(a, m, i, c);
        lemma_edit_distance(a, m, i, c);
        lemma_needed(m, b, (n - 1) as nat);
        a_detour_is_no_shorter(a, m, b);
    }
}

/// The distance is the least number of characters to insert, delete or replace:
/// as many edits turn one text into the other, and no fewer do.
pub proof fn distance_counts_the_fewest_edits(a: Seq<char>, b: Seq<char>)
    ensures
        edits(a, b, levenshtein_spec(a, b)),
        forall|n: nat| #[trigger] edits(a, b, n) ==> levenshtein_spec(a, b) <= n,
{
    lemma_enough(a, b);
    assert forall|n: nat| #[trigger] edits(a, b, n) implies levenshtein_spec(a, b) <= n by {
        lemma_needed(a, b, n);
    }
}

/// Levenshtein distance over chars (two-row table).
pub fn levenshtein(a: &str, b: &str) -> (r: usize)
    ensures
        r == levenshtein_spec(a@, b@),
{
    let av = text::chars(a);
    let bv = text::chars(b);
    let n: usize = av.len();
    let m: usize = bv.len();
    let mut prev: Vec<usize> = Vec::new();
    let mut k: usize = 0;
    while k < m
        invariant
            k <= m,
            prev@.len() == k,
            forall|j: int| 0 <= j < k ==> prev@[j] == j,
        decreases m - k,
    {
        prev.push(k);
        k = k + 1;
    }
    prev.push(m);
    let width: usize = prev.len();
    assert(a@.take(0) =~= Seq::empty());
    let mut i: usize = 0;
    while i < n
        invariant
            i <= n,
            n == av@.len(),
            m == bv@.len(),
            width == m + 1,
            av@ == a@,
            bv@ == b@,
            prev@.len() == m + 1,
            forall|j: int|
                0 <= j <= m ==> (#[trigger] prev@[j]) == levenshtein_spec(
                    a@.take(i as int),
                    b@.take(j),
                ),
        decreases n - i,
    {
        let ghost ai = a@.take(i as int);
        let ghost an = a@.take(i + 1);
        assert(an.drop_last() =~= ai);
        let mut cur: Vec<usize> = Vec::new();
        cur.push(i + 1);
        assert(levenshtein_spec(an, b@.take(0)) == i + 1);
        let mut j: usize = 0;
        while j < m
            invariant
                i < n,
                j <= m,
                n == av@.len(),
                m == bv@.len(),
                width == m + 1,
                av@ == a@,
                bv@ == b@,
                ai == a@.take(i as int),
                an == a@.take(i + 1),
                an.drop_last() == ai,
                prev@.len() == m + 1,
                forall|k: int|
                    0 <= k <= m ==> (#[trigger] prev@[k]) == levenshtein_spec(ai, b@.take(k)),
                cur@.len() == j + 1,
                forall|k: int|
                    0 <= k <= j ==> (#[trigger] cur@[k]) == levenshtein_spec(an, b@.take(k)),
            decreases m - j,
        {
            let ghost bj = b@.take(j as int);
            let ghost bn = b@.take(j + 1);
            assert(bn.drop_last() =~= bj);
            proof {
                lemma_distance_bound(ai, bn);
                lemma_distance_bound(an, bj);
                lemma_distance_bound(ai, bj);
            }
            let above: usize = prev[j + 1];
            let left: usize = cur[j];
            let corner: usize = prev[j];
            assert(an.last() == av@[i as int]);
            assert(bn.last() == bv@[j as int]);
            let same = av[i] == bv[j];
            let mut best: usize = if above < left {
                above
            } else {
                left
            };
            if same {
                best = if best < corner {
                    best + 1
                } else {
                    corner
                };
            } else {
                best = (if best < corner {
                    best
                } else {
                    corner
                }) + 1;
            }
            cur.push(best);
            assert(best == levenshtein_spec(an, bn));
            j = j + 1;
        }
        prev = cur;
        i = i + 1;
    }
    assert(a@.take(n as int) =~= a@);
    assert(b@.take(m as int) =~= b@);
    prev[m]
}

} // verus!
