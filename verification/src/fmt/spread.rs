//! Lines in the place of each line of a text.

use vstd::prelude::*;
use crate::fmt::blank::{self, Block};
use crate::fmt::reread;
use crate::fmt::resort;
use crate::fmt::shape;
use crate::fmt::sort::{self, DateKey};
use crate::lex;
use crate::text;

verus! {

/// The lines that stand in the place of others, in order.
pub open spec fn flat(ps: Seq<Seq<Seq<char>>>) -> Seq<Seq<char>>
    decreases ps.len(),
{
    if ps.len() == 0 {
        Seq::empty()
    } else {
        ps[0] + flat(ps.skip(1))
    }
}

pub proof fn lemma_flat_concat(a: Seq<Seq<Seq<char>>>, b: Seq<Seq<Seq<char>>>)
    ensures
        flat(a + b) == flat(a) + flat(b),
    decreases a.len(),
{
    if a.len() == 0 {
        assert(a + b =~= b);
        assert(flat(a) + flat(b) =~= flat(b));
    } else {
        lemma_flat_concat(a.skip(1), b);
        assert((a + b).skip(1) =~= a.skip(1) + b);
        assert((a + b)[0] == a[0]);
        assert(a[0] + (flat(a.skip(1)) + flat(b)) =~= flat(a) + flat(b));
    }
}

pub proof fn lemma_flat_one(p: Seq<Seq<char>>)
    ensures
        flat(seq![p]) == p,
{
    assert(seq![p].skip(1) =~= Seq::empty());
    assert(flat(Seq::<Seq<Seq<char>>>::empty()) =~= Seq::empty());
    assert(flat(seq![p]) =~= p);
}

/// No line holds a newline where none of those it stands for does.
pub proof fn lemma_flat_without(ps: Seq<Seq<Seq<char>>>)
    requires
        forall|i: int| 0 <= i < ps.len() ==> forall|j: int|
            0 <= j < (#[trigger] ps[i]).len() ==> !(#[trigger] ps[i][j]).contains('\n'),
    ensures
        forall|i: int| 0 <= i < flat(ps).len() ==> !(#[trigger] flat(ps)[i]).contains('\n'),
    decreases ps.len(),
{
    if ps.len() > 0 {
        let more = ps.skip(1);
        assert forall|i: int| 0 <= i < more.len() implies forall|j: int|
            0 <= j < (#[trigger] more[i]).len() ==> !(#[trigger] more[i][j]).contains('\n') by {
            assert(more[i] == ps[i + 1]);
        }
        lemma_flat_without(more);
        let f = flat(ps);
        assert forall|i: int| 0 <= i < f.len() implies !(#[trigger] f[i]).contains('\n') by {
            if i < ps[0].len() {
                assert(f[i] == ps[0][i]);
            } else {
                assert(f[i] == flat(more)[i - ps[0].len()]);
            }
        }
    }
}

/// Whether lines can stand in the place of a line: lines of its kind and date,
/// several only for an indented one.
pub open spec fn replaces(l: Seq<char>, p: Seq<Seq<char>>) -> bool {
    &&& p.len() > 0
    &&& p.len() > 1 ==> lex::is_indented_spec(l)
    &&& forall|j: int|
        0 <= j < p.len() ==> shape::alike(l, #[trigger] p[j]) && resort::same_date(l, p[j])
}

/// Whether each line can be replaced.
pub open spec fn all_replace(ls: Seq<Seq<char>>, ps: Seq<Seq<Seq<char>>>) -> bool {
    &&& ls.len() == ps.len()
    &&& forall|i: int| 0 <= i < ls.len() ==> replaces(#[trigger] ls[i], ps[i])
}

proof fn lemma_part(ls: Seq<Seq<char>>, ps: Seq<Seq<Seq<char>>>, i: int, j: int)
    requires
        all_replace(ls, ps),
        0 <= i <= j <= ls.len(),
    ensures
        all_replace(ls.subrange(i, j), ps.subrange(i, j)),
{
    let x = ls.subrange(i, j);
    let y = ps.subrange(i, j);
    assert forall|k: int| 0 <= k < x.len() implies replaces(#[trigger] x[k], y[k]) by {
        assert(replaces(ls[i + k], ps[i + k]));
    }
}

/// An indented line closes no `comment` block.
proof fn lemma_indented_closes_nothing(l: Seq<char>)
    requires
        lex::is_indented_spec(l),
    ensures
        !lex::closes_block_spec(l),
        !lex::opens_block_spec(l),
{
    reveal_strlit("end comment");
    reveal_strlit("comment");
    reread::lemma_rstrip(l);
    if lex::rstrip_spec(l).len() > 0 {
        assert(lex::rstrip_spec(l)[0] == l[0]);
    }
}

/// What replaces indented lines is indented.
proof fn lemma_indented(ls: Seq<Seq<char>>, ps: Seq<Seq<Seq<char>>>)
    requires
        all_replace(ls, ps),
        forall|i: int| 0 <= i < ls.len() ==> lex::is_indented_spec(#[trigger] ls[i]),
    ensures
        forall|i: int| 0 <= i < flat(ps).len() ==> lex::is_indented_spec(#[trigger] flat(ps)[i]),
    decreases ls.len(),
{
    if ls.len() > 0 {
        let n = ls.len() as int;
        lemma_part(ls, ps, 1, n);
        assert(ls.subrange(1, n) =~= ls.skip(1));
        assert(ps.subrange(1, n) =~= ps.skip(1));
        let t = ls.skip(1);
        assert forall|i: int| 0 <= i < t.len() implies lex::is_indented_spec(#[trigger] t[i]) by {
            assert(t[i] == ls[i + 1]);
        }
        lemma_indented(t, ps.skip(1));
        let f = flat(ps);
        assert forall|i: int| 0 <= i < f.len() implies lex::is_indented_spec(#[trigger] f[i]) by {
            assert(replaces(ls[0], ps[0]));
            if i < ps[0].len() {
                assert(f[i] == ps[0][i]);
                assert(shape::alike(ls[0], ps[0][i]));
            } else {
                assert(f[i] == flat(ps.skip(1))[i - ps[0].len()]);
            }
        }
    }
}

/// A line that does not close a `comment` block, any number of times.
proof fn lemma_block_front(a: Seq<Seq<char>>, b: Seq<Seq<char>>)
    requires
        forall|i: int| 0 <= i < a.len() ==> !lex::closes_block_spec(#[trigger] a[i]),
    ensures
        lex::block_len_spec(a + b) == a.len() + lex::block_len_spec(b),
    decreases a.len(),
{
    if a.len() == 0 {
        assert(a + b =~= b);
    } else {
        let t = a.skip(1);
        assert forall|i: int| 0 <= i < t.len() implies !lex::closes_block_spec(#[trigger] t[i]) by {
            assert(t[i] == a[i + 1]);
        }
        lemma_block_front(t, b);
        assert((a + b).skip(1) =~= t + b);
        assert((a + b)[0] == a[0]);
    }
}

/// What replaces the body of a `comment` block is one.
proof fn lemma_block(ls: Seq<Seq<char>>, ps: Seq<Seq<Seq<char>>>)
    requires
        all_replace(ls, ps),
        lex::block_len_spec(ls) == ls.len(),
    ensures
        lex::block_len_spec(flat(ps)) == flat(ps).len(),
        shape::closed(flat(ps)) == shape::closed(ls),
        (flat(ps).len() == 0) == (ls.len() == 0),
    decreases ls.len(),
{
    if ls.len() > 0 {
        let n = ls.len() as int;
        lemma_part(ls, ps, 1, n);
        let t = ls.skip(1);
        let more = ps.skip(1);
        assert(ls.subrange(1, n) =~= t);
        assert(ps.subrange(1, n) =~= more);
        assert(replaces(ls[0], ps[0]));
        let p = ps[0];
        let f = flat(ps);
        assert(shape::alike(ls[0], p[0]));
        if lex::closes_block_spec(ls[0]) {
            assert(n == 1);
            if lex::is_indented_spec(ls[0]) {
                lemma_indented_closes_nothing(ls[0]);
            }
            assert(more =~= Seq::empty());
            assert(f =~= p);
            assert(f[0] == p[0]);
            assert(ls.last() == ls[0] && f.last() == p[0]);
        } else {
            lemma_block(t, more);
            assert forall|i: int| 0 <= i < p.len() implies !lex::closes_block_spec(
                #[trigger] p[i],
            ) by {
                assert(shape::alike(ls[0], p[i]));
            }
            lemma_block_front(p, flat(more));
            if t.len() > 0 {
                assert(t.last() == ls.last());
                assert(f.last() == flat(more).last());
            } else {
                assert(f =~= p);
                assert(ls.last() == ls[0]);
                assert(f.last() == p[p.len() - 1]);
            }
        }
    } else {
        assert(flat(ps) =~= Seq::empty());
    }
}

/// What replaces lines begins with as many comments, and goes on as they do.
proof fn lemma_lead(ls: Seq<Seq<char>>, ps: Seq<Seq<Seq<char>>>)
    requires
        all_replace(ls, ps),
    ensures
        ({
            let k = shape::lead(ls);
            let f = flat(ps);
            &&& shape::lead(f) == k
            &&& 0 <= k <= ls.len()
            &&& f.len() >= ls.len()
            &&& ls.len() > 0 ==> f[0] == ps[0][0]
            &&& k == ls.len() ==> f.len() == k
            &&& k < ls.len() ==> f[k] == ps[k][0] && f.skip(k + 1) == ps[k].skip(1) + flat(
                ps.skip(k + 1),
            )
        }),
    decreases ls.len(),
{
    let f = flat(ps);
    shape::lemma_lead(ls);
    if ls.len() == 0 {
        assert(f =~= Seq::empty());
    } else {
        let n = ls.len() as int;
        lemma_part(ls, ps, 1, n);
        let t = ls.skip(1);
        let more = ps.skip(1);
        assert(ls.subrange(1, n) =~= t);
        assert(ps.subrange(1, n) =~= more);
        lemma_lead(t, more);
        assert(replaces(ls[0], ps[0]));
        let p = ps[0];
        assert(shape::alike(ls[0], p[0]));
        assert(f[0] == p[0]);
        if lex::is_comment_spec(ls[0]) {
            assert(!lex::is_indented_spec(ls[0])) by {
                assert(!text::is_white(ls[0][0]));
            }
            assert(p.len() == 1);
            let k = shape::lead(t);
            assert(f.skip(1) =~= flat(more));
            if k < t.len() {
                assert(f[k + 1] == flat(more)[k]);
                assert(f.skip(k + 2) =~= flat(more).skip(k + 1));
                assert(more.skip(k + 1) =~= ps.skip(k + 2));
                assert(more[k] == ps[k + 1]);
            }
        } else {
            assert(f.skip(1) =~= p.skip(1) + flat(more));
        }
    }
}

/// What stays of a block when its lines are replaced.
pub open spec fn kin(b: Block, c: Block) -> bool {
    let k = shape::lead(b.lines);
    &&& c.txn == b.txn
    &&& c.blank_before == b.blank_before
    &&& shape::lead(c.lines) == k
    &&& (k < b.lines.len()) == (k < c.lines.len())
    &&& shape::valid(c)
    &&& shape::alike(b.lines[0], c.lines[0])
    &&& k < b.lines.len() ==> {
        &&& shape::alike(b.lines[k], c.lines[k])
        &&& resort::same_date(b.lines[k], c.lines[k])
        &&& lex::opens_block_spec(b.lines[k]) ==> shape::closed(c.lines.skip(k + 1))
            == shape::closed(b.lines.skip(k + 1))
    }
}

proof fn lemma_kin(b: Block, ps: Seq<Seq<Seq<char>>>)
    requires
        shape::valid(b),
        all_replace(b.lines, ps),
    ensures
        kin(b, Block { lines: flat(ps), ..b }),
{
    let ls = b.lines;
    let k = shape::lead(ls);
    let f = flat(ps);
    lemma_lead(ls, ps);
    shape::lemma_lead(ls);
    assert(replaces(ls[0], ps[0]));
    assert(shape::alike(ls[0], ps[0][0]));
    if k < ls.len() {
        let n = ls.len() as int;
        assert(replaces(ls[k], ps[k]));
        assert(shape::alike(ls[k], ps[k][0]));
        let body = ls.skip(k + 1);
        let more = ps.skip(k + 1);
        lemma_part(ls, ps, k + 1, n);
        assert(ls.subrange(k + 1, n) =~= body);
        assert(ps.subrange(k + 1, n) =~= more);
        let g = f.skip(k + 1);
        if lex::opens_block_spec(ls[k]) {
            if lex::is_indented_spec(ls[k]) {
                lemma_indented_closes_nothing(ls[k]);
            }
            lemma_block(body, more);
            assert(g =~= flat(more));
        } else {
            lemma_indented(body, more);
            assert forall|i: int| 0 <= i < g.len() implies lex::is_indented_spec(#[trigger] g[i]) by {
                if i < ps[k].len() - 1 {
                    assert(g[i] == ps[k][i + 1]);
                    assert(shape::alike(ls[k], ps[k][i + 1]));
                } else {
                    assert(g[i] == flat(more)[i - (ps[k].len() - 1)]);
                }
            }
        }
    }
}

proof fn lemma_kin_linked(a: Block, b: Block, c: Block, d: Block)
    requires
        shape::linked(a, b),
        kin(a, c),
        kin(b, d),
    ensures
        shape::linked(c, d),
{
}

/// Blocks with their lines replaced.
pub open spec fn cut(prev: Block, bs: Seq<Block>, ps: Seq<Seq<Seq<char>>>) -> Seq<Block>
    decreases bs.len(),
{
    if bs.len() == 0 {
        Seq::empty()
    } else {
        let g = blank::gap_spec(prev, bs[0]).len() as int;
        let n = bs[0].lines.len() as int;
        seq![Block { lines: flat(ps.subrange(g, g + n)), ..bs[0] }] + cut(
            bs[0],
            bs.skip(1),
            ps.skip(g + n),
        )
    }
}

proof fn lemma_cut(
    prev: Block,
    bs: Seq<Block>,
    ps: Seq<Seq<Seq<char>>>,
    last: Option<DateKey>,
)
    requires
        shape::chain(bs),
        all_replace(shape::follow(prev, bs), ps),
    ensures
        ({
            let cs = cut(prev, bs, ps);
            &&& cs.len() == bs.len()
            &&& shape::chain(cs)
            &&& forall|other: Block|
                other.txn == prev.txn ==> #[trigger] shape::follow(other, cs) == flat(ps)
            &&& cs.len() > 0 ==> kin(bs[0], cs[0])
            &&& resort::blocks_in_order(cs, last) == resort::blocks_in_order(bs, last)
        }),
    decreases bs.len(),
{
    let cs = cut(prev, bs, ps);
    if bs.len() == 0 {
        assert(ps =~= Seq::empty());
        assert(flat(ps) =~= Seq::empty());
    } else {
        let b = bs[0];
        let gap = blank::gap_spec(prev, b);
        let g = gap.len() as int;
        let n = b.lines.len() as int;
        let all = shape::follow(prev, bs);
        let z = all.len() as int;
        let more = bs.skip(1);
        let after = shape::follow(b, more);
        assert(all == gap + b.lines + after);
        let mine = ps.subrange(g, g + n);
        let rest = ps.skip(g + n);
        lemma_part(all, ps, g, g + n);
        lemma_part(all, ps, g + n, z);
        assert(all.subrange(g, g + n) =~= b.lines);
        assert(all.subrange(g + n, z) =~= after);
        assert(ps.subrange(g + n, z) =~= rest);
        let c = Block { lines: flat(mine), ..b };
        shape::lemma_chain_skip(bs);
        assert(shape::valid(bs[0]));
        lemma_kin(b, mine);
        let next = if b.txn {
            Some(sort::date_key_spec(b.lines[shape::lead(b.lines)]))
        } else {
            None
        };
        lemma_cut(b, more, rest, next);
        let ds = cut(b, more, rest);
        assert(cs =~= seq![c] + ds);
        if ds.len() > 0 {
            assert(more[0] == bs[1]);
            assert(shape::linked(bs[0], bs[1]));
            lemma_kin_linked(b, more[0], c, ds[0]);
        }
        shape::lemma_chain_cons(c, ds);
        assert(cs.skip(1) =~= ds);
        assert(cs[0] == c);
        let front = ps.take(g);
        assert(flat(front) =~= gap) by {
            if g > 0 {
                assert(g == 1);
                assert(replaces(all[0], ps[0]));
                assert(all[0] == Seq::<char>::empty());
                assert(shape::alike(all[0], ps[0][0]));
                assert(ps[0][0] =~= Seq::<char>::empty());
                assert(front =~= seq![ps[0]]);
                lemma_flat_one(ps[0]);
            } else {
                assert(front =~= Seq::empty());
            }
        }
        assert(ps =~= front + (mine + rest));
        lemma_flat_concat(front, mine + rest);
        lemma_flat_concat(mine, rest);
        assert forall|other: Block| other.txn == prev.txn implies #[trigger] shape::follow(other, cs)
            == flat(ps) by {
            assert(shape::follow(c, ds) == flat(rest));
            assert(blank::gap_spec(other, c) =~= gap);
            assert(gap + c.lines + flat(rest) =~= flat(ps));
        }
    }
}

/// The blocks that what replaces the lines of blocks falls into.
proof fn lemma_replaced_blocks(bs: Seq<Block>, ps: Seq<Seq<Seq<char>>>) -> (cs: Seq<Block>)
    requires
        bs.len() > 0,
        shape::chain(bs),
        all_replace(blank::join_blocks_spec(bs), ps),
    ensures
        cs.len() > 0,
        shape::chain(cs),
        blank::join_blocks_spec(cs) == flat(ps),
        resort::blocks_in_order(cs, None) == resort::blocks_in_order(bs, None),
{
    shape::lemma_join_front(bs);
    let b = bs[0];
    let n = b.lines.len() as int;
    let more = bs.skip(1);
    let after = shape::follow(b, more);
    let all = b.lines + after;
    let z = all.len() as int;
    let mine = ps.take(n);
    let rest = ps.skip(n);
    lemma_part(all, ps, 0, n);
    lemma_part(all, ps, n, z);
    assert(all.subrange(0, n) =~= b.lines);
    assert(all.subrange(n, z) =~= after);
    assert(ps.subrange(0, n) =~= mine);
    assert(ps.subrange(n, z) =~= rest);
    let c = Block { lines: flat(mine), ..b };
    shape::lemma_chain_skip(bs);
    assert(shape::valid(bs[0]));
    lemma_kin(b, mine);
    let next = if b.txn {
        Some(sort::date_key_spec(b.lines[shape::lead(b.lines)]))
    } else {
        None
    };
    lemma_cut(b, more, rest, next);
    let ds = cut(b, more, rest);
    if ds.len() > 0 {
        assert(shape::linked(bs[0], bs[1]));
        lemma_kin_linked(b, more[0], c, ds[0]);
    }
    shape::lemma_chain_cons(c, ds);
    let cs = seq![c] + ds;
    assert(cs[0] == c);
    assert(cs.skip(1) =~= ds);
    assert(shape::follow(c, ds) == flat(rest));
    lemma_flat_concat(mine, rest);
    assert(mine + rest =~= ps);
    shape::lemma_join_front(cs);
    cs
}

/// What replaces the lines of a normalized text is normalized, and sorted where
/// the text was in order.
pub proof fn lemma_replaced(src: Seq<Seq<char>>, ps: Seq<Seq<Seq<char>>>)
    requires
        all_replace(blank::normalize_spec(src), ps),
    ensures
        blank::normalize_spec(flat(ps)) == flat(ps),
        resort::blocks_in_order(blank::parse_spec(src, Seq::empty(), false), None)
            ==> sort::sort_entries_spec(flat(ps)) == flat(ps),
{
    let none = Seq::<Seq<char>>::empty();
    let bs = blank::parse_spec(src, none, false);
    shape::lemma_parse_chain(src, none, false);
    if bs.len() == 0 {
        assert(ps =~= Seq::empty());
        assert(flat(ps) =~= none);
        shape::lemma_written_is_normal(Seq::empty());
        assert(blank::join_blocks_spec(Seq::empty()) =~= none);
        assert(sort::entries_spec(none, none) =~= Seq::empty());
        assert(sort::sort_run_spec(Seq::empty()) =~= Seq::empty());
        assert(sort::sort_entries_spec(flat(ps)) =~= flat(ps));
    } else {
        let cs = lemma_replaced_blocks(bs, ps);
        shape::lemma_written_is_normal(cs);
        if resort::blocks_in_order(bs, None) {
            resort::lemma_chain_sorted(cs);
        }
    }
}

} // verus!
