//! The transactions that a file lists, however it is laid out.

use vstd::prelude::*;
use crate::add::append;
use crate::add::filemap;
use crate::add::insertion::{self, ascend, days};
use crate::add::integrate::{self, Outcome, Placement, Scopes};
use crate::add::parser;
use crate::add::write::{Insertion, NewTxn, WriteOptions};
use crate::amount::Ctx;
use crate::calendar;
use crate::date::{self, Day};
use crate::fmt::{self, Classify, Options};
use crate::fmt::balanced::{self, is_txn};
use crate::fmt::explicit::Line;
use crate::fmt::filled;
use crate::fmt::kept;
use crate::fmt::laws;
use crate::fmt::posting;
use crate::fmt::reread;
use crate::fmt::settle;
use crate::fmt::shape;
use crate::fmt::spread;
use crate::fmt::tree;
use crate::lex;
use crate::restyle::Places;
use crate::text::{self, CharClass};
use crate::tokens;

verus! {

// ---- reading line by line ----

/// The dates of the transactions so far, and what the next line is read with.
pub struct Listing {
    pub days: Seq<Option<Day>>,
    pub opaque: bool,
    pub year: Option<i32>,
}

impl Listing {
    /// One line further.
    pub open spec fn step(self, l: Seq<char>, this_year: i32) -> Listing {
        if self.opaque {
            Listing { opaque: !lex::closes_block_spec(l), ..self }
        } else if lex::opens_block_spec(l) {
            Listing { opaque: true, ..self }
        } else if lex::opens_txn_spec(l) {
            let year = (match self.year {
                Some(y) => y,
                None => this_year,
            }) as int;
            Listing {
                days: self.days.push(date::parse_date_spec(filemap::first_word(l), year)),
                ..self
            }
        } else {
            Listing {
                year: match parser::year_directive_spec(l) {
                    Some(y) => Some(y as i32),
                    None => self.year,
                },
                ..self
            }
        }
    }
}

/// Reading on from a point.
pub open spec fn list_on(st: Listing, ls: Seq<Seq<char>>, this_year: i32) -> Listing
    decreases ls.len(),
{
    if ls.len() == 0 {
        st
    } else {
        list_on(st, ls.drop_last(), this_year).step(ls.last(), this_year)
    }
}

proof fn lemma_on_concat(st: Listing, a: Seq<Seq<char>>, b: Seq<Seq<char>>, this_year: i32)
    ensures
        list_on(st, a + b, this_year) == list_on(list_on(st, a, this_year), b, this_year),
    decreases b.len(),
{
    if b.len() == 0 {
        assert(a + b =~= a);
    } else {
        lemma_on_concat(st, a, b.drop_last(), this_year);
        assert((a + b).drop_last() =~= a + b.drop_last());
        assert((a + b).last() == b.last());
    }
}

proof fn lemma_on_one(st: Listing, l: Seq<char>, this_year: i32)
    ensures
        list_on(st, seq![l], this_year) == st.step(l, this_year),
{
    let one = seq![l];
    assert(one.drop_last() =~= Seq::empty());
    assert(one.last() == l);
    assert(list_on(st, one.drop_last(), this_year) == st);
}

/// A line that starts with white space is no transaction and no directive.
proof fn lemma_passed_over(st: Listing, l: Seq<char>, this_year: i32)
    requires
        lex::is_blank_spec(l) || lex::is_indented_spec(l),
    ensures
        st.step(l, this_year) == st,
{
    reveal_strlit("comment");
    reveal_strlit("end comment");
    reveal_strlit("Y");
    reveal_strlit("year");
    reread::lemma_rstrip(l);
    if l.len() > 0 {
        assert(text::is_white(l[0]));
        if lex::rstrip_spec(l).len() > 0 {
            assert(lex::rstrip_spec(l)[0] == l[0]);
        }
    }
    laws::lemma_no_directive(l, "Y"@);
    laws::lemma_no_directive(l, "year"@);
}

proof fn lemma_all_passed_over(st: Listing, ls: Seq<Seq<char>>, this_year: i32)
    requires
        !st.opaque,
        forall|i: int| 0 <= i < ls.len() ==> lex::is_indented_spec(#[trigger] ls[i]),
    ensures
        list_on(st, ls, this_year) == st,
    decreases ls.len(),
{
    if ls.len() > 0 {
        let f = ls.drop_last();
        assert forall|i: int| 0 <= i < f.len() implies lex::is_indented_spec(#[trigger] f[i]) by {
            assert(f[i] == ls[i]);
        }
        lemma_all_passed_over(st, f, this_year);
        assert(lex::is_indented_spec(ls[ls.len() - 1]));
        lemma_passed_over(st, ls.last(), this_year);
    }
}

proof fn lemma_run_indented(ls: Seq<Seq<char>>, i: int)
    requires
        0 <= i <= ls.len(),
    ensures
        forall|k: int|
            i <= k < filemap::run_end(ls, i) ==> lex::is_indented_spec(#[trigger] ls[k]),
    decreases ls.len() - i,
{
    if i < ls.len() && lex::is_indented_spec(ls[i]) {
        lemma_run_indented(ls, i + 1);
    }
}

/// Reading line by line comes to the transactions of a file.
proof fn lemma_listing(st: Listing, ls: Seq<Seq<char>>, i: int, this_year: i32)
    requires
        0 <= i <= ls.len(),
    ensures
        list_on(st, ls.skip(i), this_year).days == st.days + insertion::days(
            filemap::spans_spec(ls, i, st.opaque, st.year, this_year),
        ),
    decreases ls.len() - i,
{
    let rest = ls.skip(i);
    let ss = filemap::spans_spec(ls, i, st.opaque, st.year, this_year);
    if i == ls.len() {
        assert(rest =~= Seq::empty());
        assert(st.days + insertion::days(ss) =~= st.days);
    } else {
        let l = ls[i];
        let next = st.step(l, this_year);
        assert(rest =~= seq![l] + ls.skip(i + 1));
        lemma_on_concat(st, seq![l], ls.skip(i + 1), this_year);
        lemma_on_one(st, l, this_year);
        if !st.opaque && !lex::opens_block_spec(l) && lex::opens_txn_spec(l) {
            let end = filemap::run_end(ls, i + 1);
            filemap::lemma_run_end(ls, i + 1);
            lemma_run_indented(ls, i + 1);
            let run = ls.subrange(i + 1, end);
            assert forall|k: int| 0 <= k < run.len() implies lex::is_indented_spec(
                #[trigger] run[k],
            ) by {
                assert(run[k] == ls[i + 1 + k]);
            }
            assert(ls.skip(i + 1) =~= run + ls.skip(end));
            lemma_on_concat(next, run, ls.skip(end), this_year);
            lemma_all_passed_over(next, run, this_year);
            lemma_listing(next, ls, end, this_year);
            let more = filemap::spans_spec(ls, end, false, st.year, this_year);
            assert(next.days + insertion::days(more) =~= st.days + insertion::days(ss));
        } else {
            lemma_listing(next, ls, i + 1, this_year);
        }
    }
}

/// The start of a file.
pub open spec fn nothing() -> Listing {
    Listing { days: Seq::empty(), opaque: false, year: None }
}

proof fn lemma_listed(ls: Seq<Seq<char>>, this_year: i32)
    ensures
        insertion::days(filemap::all_spans(ls, this_year)) == list_on(nothing(), ls, this_year).days,
{
    lemma_listing(nothing(), ls, 0, this_year);
    assert(ls.skip(0) =~= ls);
    assert(nothing().days + insertion::days(filemap::all_spans(ls, this_year)) =~= insertion::days(
        filemap::all_spans(ls, this_year),
    ));
}

/// Blank lines make no difference.
proof fn lemma_solid(st: Listing, ls: Seq<Seq<char>>, this_year: i32)
    ensures
        list_on(st, kept::solid(ls), this_year) == list_on(st, ls, this_year),
    decreases ls.len(),
{
    if ls.len() > 0 {
        lemma_solid(st, ls.drop_last(), this_year);
        if lex::is_blank_spec(ls.last()) {
            lemma_passed_over(list_on(st, ls.drop_last(), this_year), ls.last(), this_year);
        } else {
            let k = kept::solid(ls);
            assert(k.drop_last() =~= kept::solid(ls.drop_last()));
            assert(k.last() == ls.last());
        }
    }
}

// ---- laying out ----

/// What a line is written as lists what the line does.
proof fn lemma_piece(
    acc_w: nat,
    num_w: nat,
    st: Listing,
    a: Classify,
    l: Seq<char>,
    c: Line,
    ctx: Ctx,
    opts: Options,
    this_year: i32,
)
    requires
        filled::fits(a, l, c, ctx, opts),
        !l.contains('\n'),
        st.opaque == a.opaque,
    ensures
        list_on(st, fmt::format_line_spec(acc_w, num_w, l, c), this_year) == st.step(l, this_year),
{
    let p = fmt::format_line_spec(acc_w, num_w, l, c);
    filled::lemma_written(acc_w, num_w, a, l, c, ctx, opts);
    reveal(filled::fits);
    match c {
        Line::Post(_) => {
            assert forall|j: int| 0 <= j < p.len() implies lex::is_indented_spec(
                #[trigger] p[j],
            ) by {
                assert(shape::alike(l, p[j]));
            }
            lemma_all_passed_over(st, p, this_year);
            lemma_passed_over(st, l, this_year);
        },
        Line::Opaque => {
            assert(p =~= seq![l]);
            lemma_on_one(st, l, this_year);
        },
        Line::Other => {
            let w = fmt::format_other_spec(l);
            assert(p =~= seq![w]);
            lemma_on_one(st, w, this_year);
            assert(shape::alike(l, p[0]));
            if lex::is_blank_spec(l) {
                lemma_passed_over(st, l, this_year);
                lemma_passed_over(st, w, this_year);
            } else if lex::opens_txn_spec(l) {
                reread::lemma_rstrip(l);
                let tail = l.skip(w.len() as int);
                text::lemma_run_back(l, CharClass::White, true);
                assert(text::all_spec(tail, CharClass::White)) by {
                    assert forall|i: int| 0 <= i < tail.len() implies CharClass::White.has(
                        #[trigger] tail[i],
                    ) by {
                        assert(tail[i] == l[w.len() + i]);
                    }
                }
                assert(l =~= w + tail);
                tokens::lemma_words_white(tail);
                tokens::lemma_words_concat(w, tail);
                assert(text::words_spec(l) =~= text::words_spec(w));
            }
        },
    }
}

proof fn lemma_pieces_listed(
    acc_w: nat,
    num_w: nat,
    ls: Seq<Seq<char>>,
    stages: Seq<Ctx>,
    opts: Options,
    this_year: i32,
    n: int,
)
    requires
        filled::all_clean(stages),
        forall|i: int| 0 <= i < ls.len() ==> !(#[trigger] ls[i]).contains('\n'),
        0 <= n <= ls.len(),
    ensures
        ({
            let styled = fmt::styled_stages_spec(ls, stages, opts);
            let st = list_on(nothing(), ls.take(n), this_year);
            &&& list_on(
                nothing(),
                spread::flat(filled::pieces(acc_w, num_w, ls, styled).take(n)),
                this_year,
            ) == st
            &&& st.opaque == fmt::passed(ls.take(n)).1
        }),
    decreases n,
{
    let styled = fmt::styled_stages_spec(ls, stages, opts);
    let ps = filled::pieces(acc_w, num_w, ls, styled);
    if n == 0 {
        assert(ls.take(0) =~= Seq::empty());
        assert(ps.take(0) =~= Seq::empty());
        assert(spread::flat(ps.take(0)) =~= Seq::empty());
    } else {
        let k = n - 1;
        lemma_pieces_listed(acc_w, num_w, ls, stages, opts, this_year, k);
        filled::lemma_class_fits(ls, stages, opts);
        filled::lemma_sound(ls, stages, opts, k);
        let a = filled::read(ls.take(k), stages, opts);
        let st = list_on(nothing(), ls.take(k), this_year);
        let ctx = filled::here(ls.take(k), stages);
        assert(filled::fits(a, ls[k], styled[k], ctx, opts));
        lemma_piece(acc_w, num_w, st, a, ls[k], styled[k], ctx, opts, this_year);
        assert(ps.take(n) =~= ps.take(k) + seq![ps[k]]);
        spread::lemma_flat_concat(ps.take(k), seq![ps[k]]);
        spread::lemma_flat_one(ps[k]);
        lemma_on_concat(nothing(), spread::flat(ps.take(k)), ps[k], this_year);
        assert(ls.take(n).drop_last() =~= ls.take(k));
        assert(ls.take(n).last() == ls[k]);
    }
}

/// Formatting without `--sort` keeps every transaction, its date and its place
/// among the others, with or without amounts filled in.
pub proof fn formatting_keeps_the_transactions(
    s: Seq<char>,
    inherited: Seq<(usize, Ctx)>,
    opts: Options,
    this_year: i32,
)
    requires
        filled::clean_inheritance(inherited),
        !opts.sort,
    ensures
        insertion::days(
            filemap::all_spans(
                fmt::lines_spec(tree::format_at_spec(s, inherited, opts)),
                this_year,
            ),
        ) == insertion::days(filemap::all_spans(fmt::lines_spec(s), this_year)),
{
    let raw = fmt::lines_spec(s);
    let ls = fmt::arranged_spec(s, opts);
    let stages = tree::stages_spec(fmt::scan_ctx_spec(raw), inherited);
    filled::lemma_stages_clean(raw, inherited);
    filled::lemma_arranged(s, opts);
    let n = ls.len() as int;
    let styled = fmt::styled_stages_spec(ls, stages, opts);
    let posts = fmt::all_posts(styled);
    let acc_w = fmt::account_width(posts);
    let num_w = fmt::number_width(posts);
    let ps = filled::pieces(acc_w, num_w, ls, styled);
    filled::lemma_pieces(acc_w, num_w, ls, styled, n);
    assert(ps.take(n) =~= ps);
    assert(ls.take(n) =~= ls);
    lemma_pieces_listed(acc_w, num_w, ls, stages, opts, this_year, n);
    filled::lemma_pieces_without(acc_w, num_w, ls, stages, opts);
    tokens::lines_come_back(spread::flat(ps));
    lemma_listed(spread::flat(ps), this_year);
    lemma_listed(ls, this_year);
    lemma_listed(raw, this_year);
    lemma_solid(nothing(), raw, this_year);
    lemma_solid(nothing(), ls, this_year);
    kept::normalizing_keeps_the_lines(raw);
}

// ---- writing ----

/// Whether lines are the same but for indented ones.
pub open spec fn kin(a: Seq<Seq<char>>, b: Seq<Seq<char>>) -> bool {
    &&& a.len() == b.len()
    &&& forall|i: int|
        0 <= i < a.len() ==> #[trigger] a[i] == b[i] || lex::is_indented_spec(a[i])
            && lex::is_indented_spec(b[i])
    &&& forall|i: int| 0 <= i < b.len() ==> (#[trigger] b[i]).contains('\n') ==> a[i] == b[i]
}

proof fn lemma_kin_listed(st: Listing, a: Seq<Seq<char>>, b: Seq<Seq<char>>, this_year: i32)
    requires
        kin(a, b),
    ensures
        list_on(st, a, this_year) == list_on(st, b, this_year),
    decreases a.len(),
{
    if a.len() > 0 {
        let f = a.drop_last();
        let g = b.drop_last();
        let n = a.len() - 1;
        assert(kin(f, g)) by {
            assert forall|i: int| 0 <= i < f.len() implies #[trigger] f[i] == g[i]
                || lex::is_indented_spec(f[i]) && lex::is_indented_spec(g[i]) by {
                assert(f[i] == a[i] && g[i] == b[i]);
            }
            assert forall|i: int| 0 <= i < g.len() && (#[trigger] g[i]).contains('\n') implies f[i]
                == g[i] by {
                assert(f[i] == a[i] && g[i] == b[i]);
            }
        }
        lemma_kin_listed(st, f, g, this_year);
        if a[n] != b[n] {
            lemma_passed_over(list_on(st, f, this_year), a[n], this_year);
            lemma_passed_over(list_on(st, f, this_year), b[n], this_year);
        }
    }
}

proof fn lemma_kin_splice(
    a: Seq<Seq<char>>,
    b: Seq<Seq<char>>,
    at: int,
    x: Seq<Seq<char>>,
    z: Seq<Seq<char>>,
)
    requires
        kin(a, b),
        kin(x, z),
        0 <= at,
    ensures
        kin(integrate::splice_spec(a, at, x), integrate::splice_spec(b, at, z)),
{
    let p = integrate::splice_spec(a, at, x);
    let q = integrate::splice_spec(b, at, z);
    let m = if at < a.len() {
        at
    } else {
        a.len() as int
    };
    let lead = insertion::gap_at(a, m - 1);
    let trail = insertion::gap_at(a, m);
    if m > 0 {
        assert(a[m - 1] == b[m - 1] || lex::is_indented_spec(a[m - 1]) && lex::is_indented_spec(
            b[m - 1],
        ));
    }
    if m < a.len() {
        assert(a[m] == b[m] || lex::is_indented_spec(a[m]) && lex::is_indented_spec(b[m]));
    }
    assert(p =~= a.take(m) + lead + x + trail + a.skip(m));
    assert(q =~= b.take(m) + lead + z + trail + b.skip(m));
    let h = m + lead.len();
    let e = h + x.len();
    let r = e + trail.len();
    assert forall|i: int| 0 <= i < p.len() implies (#[trigger] p[i] == q[i]
        || lex::is_indented_spec(p[i]) && lex::is_indented_spec(q[i])) && (q[i].contains('\n')
        ==> p[i] == q[i]) by {
        if i < m {
            assert(p[i] == a[i] && q[i] == b[i]);
        } else if i < h {
            assert(p[i] == lead[0] && q[i] == lead[0]);
        } else if i < e {
            assert(p[i] == x[i - h] && q[i] == z[i - h]);
        } else if i < r {
            assert(p[i] == trail[0] && q[i] == trail[0]);
        } else {
            assert(p[i] == a[m + (i - r)] && q[i] == b[m + (i - r)]);
        }
    }
    assert forall|i: int| 0 <= i < q.len() && (#[trigger] q[i]).contains('\n') implies p[i]
        == q[i] by {
        assert(p[i] == q[i] || lex::is_indented_spec(p[i]));
    }
}

/// A transaction and the same with its postings aligned.
proof fn lemma_kin_aligned(raw: Seq<Seq<char>>, acc_w: nat, num_w: nat, ctx: Ctx)
    requires
        settle::clean(ctx),
        raw.len() > 0,
        forall|i: int|
            0 <= i < raw.len() ==> !(#[trigger] raw[i]).contains('\n') && (i > 0
                ==> lex::is_indented_spec(raw[i])),
    ensures
        kin(raw, integrate::aligned(raw, acc_w, num_w, ctx)),
{
    let z = integrate::aligned(raw, acc_w, num_w, ctx);
    assert forall|i: int| 0 <= i < raw.len() implies (#[trigger] raw[i] == z[i]
        || lex::is_indented_spec(raw[i]) && lex::is_indented_spec(z[i])) && !z[i].contains(
        '\n',
    ) by {
        if i > 0 {
            let l = raw[i];
            let p = posting::parse_posting_spec(l);
            let q = posting::restyle_post_spec(p, ctx, Places::AsWritten);
            settle::lemma_parsed_plain(l);
            settle::lemma_restyled_plain(p, ctx, Places::AsWritten);
            settle::lemma_laid_out_line(acc_w, num_w, q);
            assert(raw.skip(1)[i - 1] == l);
            assert(z[i] == posting::render_spec(acc_w, num_w, q));
        }
    }
    assert forall|i: int| 0 <= i < z.len() && (#[trigger] z[i]).contains('\n') implies raw[i]
        == z[i] by {
        assert(raw[i] == z[i] || lex::is_indented_spec(raw[i]));
    }
}

proof fn lemma_kin_blocks(
    ls: Seq<Seq<char>>,
    placed: Seq<integrate::Place>,
    acc_w: nat,
    num_w: nat,
    ctx: Ctx,
)
    requires
        settle::clean(ctx),
        forall|m: int, i: int|
            0 <= m < placed.len() && 0 <= i < placed[m].raw.len() ==> !(
            #[trigger] placed[m].raw[i]).contains('\n') && (i > 0 ==> lex::is_indented_spec(
                placed[m].raw[i],
            )),
        forall|m: int|
            0 <= m < placed.len() ==> (#[trigger] placed[m]).raw.len() > 0 && placed[m].at >= 0,
    ensures
        kin(
            integrate::spliced(ls, integrate::raw_blocks(placed)),
            integrate::spliced(ls, integrate::aligned_blocks(placed, acc_w, num_w, ctx)),
        ),
    decreases placed.len(),
{
    let x = integrate::raw_blocks(placed);
    let z = integrate::aligned_blocks(placed, acc_w, num_w, ctx);
    if placed.len() > 0 {
        let f = placed.drop_last();
        let n = placed.len() - 1;
        let last = placed[n];
        assert forall|m: int, i: int| 0 <= m < f.len() && 0 <= i < f[m].raw.len() implies !(
        #[trigger] f[m].raw[i]).contains('\n') && (i > 0 ==> lex::is_indented_spec(
            f[m].raw[i],
        )) by {
            assert(f[m].raw[i] == placed[m].raw[i]);
        }
        assert forall|m: int| 0 <= m < f.len() implies (#[trigger] f[m]).raw.len() > 0 && f[m].at
            >= 0 by {
            assert(f[m] == placed[m]);
        }
        lemma_kin_blocks(ls, f, acc_w, num_w, ctx);
        assert(x.drop_last() =~= integrate::raw_blocks(f));
        assert(z.drop_last() =~= integrate::aligned_blocks(f, acc_w, num_w, ctx));
        assert(x.last() == (last.at, last.raw));
        let w = integrate::aligned(last.raw, acc_w, num_w, ctx);
        assert(z.last() == (last.at, w));
        assert forall|i: int| 0 <= i < last.raw.len() implies !(
        #[trigger] last.raw[i]).contains('\n') && (i > 0 ==> lex::is_indented_spec(
            last.raw[i],
        )) by {
            assert(placed[n].raw[i] == last.raw[i]);
        }
        lemma_kin_aligned(last.raw, acc_w, num_w, ctx);
        lemma_kin_splice(
            integrate::spliced(ls, integrate::raw_blocks(f)),
            integrate::spliced(ls, integrate::aligned_blocks(f, acc_w, num_w, ctx)),
            last.at,
            last.raw,
            w,
        );
    } else {
        assert(x =~= Seq::empty());
        assert(z =~= Seq::empty());
    }
}

/// New transactions that are written chronologically leave a file that is in
/// the order of its days in that order, reformatted or not.
pub proof fn a_file_written_chronologically_is_in_order(
    src: Seq<char>,
    txns: Seq<NewTxn>,
    opts: WriteOptions,
    inherited: Seq<(usize, Ctx)>,
    scopes: Scopes,
    this_year: i32,
)
    requires
        opts.insertion == Insertion::Chronological,
        !opts.sort,
        filled::clean_inheritance(inherited),
        insertion::ascend(filemap::all_spans(fmt::lines_spec(src), this_year)),
        forall|i: int| 0 <= i < txns.len() ==> insertion::four_digits(#[trigger] txns[i]),
        insertion::whole(
            Placement::over(fmt::lines_spec(src), txns, opts.insertion, scopes, this_year),
        ),
    ensures
        integrate::integrate_spec(src, txns, opts, inherited, scopes, this_year)
            matches Outcome::Ready { contents, warnings } ==> insertion::ascend(
            filemap::all_spans(fmt::lines_spec(contents), this_year),
        ),
{
    let ls = fmt::lines_spec(src);
    let p = Placement::over(ls, txns, opts.insertion, scopes, this_year);
    if let Outcome::Ready { contents, warnings } = integrate::integrate_spec(
        src,
        txns,
        opts,
        inherited,
        scopes,
        this_year,
    ) {
        let joined = append::joined_spec(src, txns, opts.insertion, scopes, this_year);
        insertion::writing_chronologically_keeps_the_order(src, txns, scopes, this_year);
        insertion::lemma_ascend(filemap::all_spans(fmt::lines_spec(joined), this_year));
        insertion::lemma_ascend(filemap::all_spans(fmt::lines_spec(contents), this_year));
        if opts.format_file {
            let plain = Options { sort: false, explicit: false };
            assert(contents == tree::format_at_spec(joined, inherited, plain));
            formatting_keeps_the_transactions(joined, inherited, plain, this_year);
        } else {
            let all = fmt::lines_spec(joined);
            let w = integrate::widened(tree::widths_at_spec(all, inherited), txns);
            let ctx = tree::merged_spec(inherited);
            filled::lemma_merged_clean(inherited);
            integrate::lemma_placed_raw(ls, txns, opts.insertion, scopes, this_year);
            integrate::lemma_placed_at(ls, txns, opts.insertion, scopes, this_year);
            lemma_kin_blocks(ls, p.placed, w.0, w.1, ctx);
            let x = integrate::spliced(ls, integrate::raw_blocks(p.placed));
            let z = integrate::spliced(
                ls,
                integrate::aligned_blocks(p.placed, w.0, w.1, ctx),
            );
            assert(contents == fmt::unlines_spec(z));
            tokens::lemma_lines_hold_no_newline(src);
            insertion::lemma_placing(ls, txns, scopes, this_year);
            assert forall|i: int| 0 <= i < z.len() implies !(#[trigger] z[i]).contains('\n') by {
                if z[i].contains('\n') {
                    assert(x[i] == z[i]);
                }
            }
            tokens::lines_come_back(z);
            tokens::lines_come_back(x);
            lemma_listed(x, this_year);
            lemma_listed(z, this_year);
            lemma_kin_listed(nothing(), x, z, this_year);
        }
    }
}

// ---- sortedness ----

/// A file counts as sorted exactly where no dated transaction stands behind one
/// of a later day.
pub proof fn a_sorted_file_is_one_in_order(ds: Seq<Day>)
    requires
        forall|i: int| 0 <= i < ds.len() ==> (#[trigger] ds[i]).is_real(),
    ensures
        filemap::ascending(ds) == (forall|i: int, j: int|
            0 <= i < j < ds.len() ==> (#[trigger] ds[i]).number() <= (#[trigger] ds[j]).number()),
    decreases ds.len(),
{
    if ds.len() >= 2 {
        let f = ds.drop_last();
        let n = ds.len() - 1;
        assert forall|i: int| 0 <= i < f.len() implies (#[trigger] f[i]).is_real() by {
            assert(f[i] == ds[i]);
        }
        a_sorted_file_is_one_in_order(f);
        assert(ds[n - 1].is_real() && ds[n].is_real());
        calendar::days_are_in_order(ds[n - 1], ds[n]);
        if filemap::ascending(ds) {
            assert forall|i: int, j: int| 0 <= i < j < ds.len() implies (
            #[trigger] ds[i]).number() <= (#[trigger] ds[j]).number() by {
                if j < n {
                    assert(f[i] == ds[i] && f[j] == ds[j]);
                } else if i < n - 1 {
                    assert(f[i] == ds[i] && f[n - 1] == ds[n - 1]);
                    assert(f[i].number() <= f[n - 1].number());
                }
            }
        }
        if forall|i: int, j: int|
            0 <= i < j < ds.len() ==> (#[trigger] ds[i]).number() <= (
            #[trigger] ds[j]).number() {
            assert forall|i: int, j: int| 0 <= i < j < f.len() implies (#[trigger] f[i]).number()
                <= (#[trigger] f[j]).number() by {
                assert(f[i] == ds[i] && f[j] == ds[j]);
            }
            assert(ds[n - 1].number() <= ds[n].number());
        }
    }
}

// ---- what is a transaction ----

proof fn lemma_passed_next(ls: Seq<Seq<char>>, i: int)
    requires
        0 <= i < ls.len(),
    ensures
        fmt::passed(ls.take(i + 1)).1 == (if fmt::passed(ls.take(i)).1 {
            !lex::closes_block_spec(ls[i])
        } else {
            lex::opens_block_spec(ls[i])
        }),
{
    balanced::only_an_include_line_brings_a_context(ls.take(i), ls[i]);
    assert(ls.take(i + 1) =~= ls.take(i).push(ls[i]));
}

proof fn lemma_passed_run(ls: Seq<Seq<char>>, i: int, e: int)
    requires
        0 <= i <= e <= ls.len(),
        !fmt::passed(ls.take(i)).1,
        forall|k: int| i <= k < e ==> lex::is_indented_spec(#[trigger] ls[k]),
    ensures
        !fmt::passed(ls.take(e)).1,
    decreases e - i,
{
    if i < e {
        assert(lex::is_indented_spec(ls[i]));
        laws::lemma_indented_kind(ls[i]);
        lemma_passed_next(ls, i);
        lemma_passed_run(ls, i + 1, e);
    }
}

proof fn lemma_txns(
    ls: Seq<Seq<char>>,
    i: int,
    opaque: bool,
    year: Option<i32>,
    this_year: i32,
    h: int,
    e: int,
)
    requires
        0 <= i <= ls.len(),
        fmt::passed(ls.take(i)).1 == opaque,
    ensures
        ({
            let ss = filemap::spans_spec(ls, i, opaque, year, this_year);
            &&& forall|k: int|
                0 <= k < ss.len() ==> balanced::is_txn(ls, (#[trigger] ss[k]).start, ss[k].end)
            &&& i <= h && balanced::is_txn(ls, h, e) ==> exists|k: int|
                0 <= k < ss.len() && (#[trigger] ss[k]).start == h && ss[k].end == e
        }),
    decreases ls.len() - i,
{
    let ss = filemap::spans_spec(ls, i, opaque, year, this_year);
    if i < ls.len() {
        lemma_passed_next(ls, i);
        if !opaque && !lex::opens_block_spec(ls[i]) && lex::opens_txn_spec(ls[i]) {
            let end = filemap::run_end(ls, i + 1);
            filemap::lemma_run_end(ls, i + 1);
            lemma_run_indented(ls, i + 1);
            lemma_passed_run(ls, i + 1, end);
            insertion::lemma_run_stops(ls, i + 1);
            let more = filemap::spans_spec(ls, end, false, year, this_year);
            lemma_txns(ls, end, false, year, this_year, h, e);
            assert(balanced::is_txn(ls, i, end));
            assert forall|k: int| 0 <= k < ss.len() implies balanced::is_txn(
                ls,
                (#[trigger] ss[k]).start,
                ss[k].end,
            ) by {
                if k > 0 {
                    assert(ss[k] == more[k - 1]);
                }
            }
            if i <= h && balanced::is_txn(ls, h, e) {
                if h == i {
                    assert(ss[0].start == h);
                    assert(e == end) by {
                        if e < end {
                            assert(lex::is_indented_spec(ls[e]));
                        }
                        if end < e {
                            assert(lex::is_indented_spec(ls[end]));
                        }
                    }
                } else {
                    assert(h >= end) by {
                        if h < end {
                            assert(lex::is_indented_spec(ls[h]));
                            laws::lemma_indented_kind(ls[h]);
                        }
                    }
                    let k = choose|k: int|
                        0 <= k < more.len() && (#[trigger] more[k]).start == h && more[k].end == e;
                    assert(ss[k + 1] == more[k]);
                }
            }
        } else {
            let y = if opaque || lex::opens_block_spec(ls[i]) {
                year
            } else {
                match parser::year_directive_spec(ls[i]) {
                    Some(y) => Some(y as i32),
                    None => year,
                }
            };
            let o = if opaque {
                !lex::closes_block_spec(ls[i])
            } else {
                lex::opens_block_spec(ls[i])
            };
            lemma_txns(ls, i + 1, o, y, this_year, h, e);
            if h == i && balanced::is_txn(ls, h, e) {
                reveal_strlit("comment");
                reread::lemma_rstrip(ls[i]);
                if lex::opens_block_spec(ls[i]) {
                    assert(lex::rstrip_spec(ls[i])[0] == ls[i][0]);
                }
            }
        }
    }
}

/// The transactions of a file are its headers outside any `comment` block, each
/// with the indented lines that follow it: every one of them is found, and nothing
/// else is taken for one.
pub proof fn transactions_are_found_outside_comment_blocks(
    ls: Seq<Seq<char>>,
    this_year: i32,
    h: int,
    e: int,
)
    ensures
        ({
            let ss = filemap::all_spans(ls, this_year);
            &&& forall|k: int|
                0 <= k < ss.len() ==> balanced::is_txn(ls, (#[trigger] ss[k]).start, ss[k].end)
            &&& balanced::is_txn(ls, h, e) ==> exists|k: int|
                0 <= k < ss.len() && (#[trigger] ss[k]).start == h && ss[k].end == e
        }),
{
    assert(ls.take(0) =~= Seq::empty());
    lemma_txns(ls, 0, false, None, this_year, h, e);
}

/// Written without reformatting, a transaction is aligned to columns that hold
/// the file and every new transaction, and are no wider than one of them needs.
pub proof fn new_columns_hold_everything(w: (nat, nat), txns: Seq<NewTxn>, i: int)
    ensures
        ({
            let now = integrate::widened(w, txns);
            &&& now.0 >= w.0 && now.1 >= w.1
            &&& 0 <= i < txns.len() ==> now.0 >= NewTxn::own_account_width(txns[i].postings)
                && now.1 >= NewTxn::own_number_width(txns[i].postings)
            &&& now.0 == w.0 || exists|k: int|
                0 <= k < txns.len() && now.0 == NewTxn::own_account_width(
                    (#[trigger] txns[k]).postings,
                )
            &&& now.1 == w.1 || exists|k: int|
                0 <= k < txns.len() && now.1 == NewTxn::own_number_width(
                    (#[trigger] txns[k]).postings,
                )
        }),
    decreases txns.len(),
{
    if txns.len() > 0 {
        let f = txns.drop_last();
        let n = txns.len() - 1;
        new_columns_hold_everything(w, f, i);
        let before = integrate::widened(w, f);
        let now = integrate::widened(w, txns);
        if 0 <= i < n {
            assert(f[i] == txns[i]);
        }
        if now.0 != w.0 {
            if now.0 == before.0 {
                let k = choose|k: int|
                    0 <= k < f.len() && before.0 == NewTxn::own_account_width(
                        (#[trigger] f[k]).postings,
                    );
                assert(txns[k] == f[k]);
            } else {
                assert(now.0 == NewTxn::own_account_width(txns[n].postings));
            }
        }
        if now.1 != w.1 {
            if now.1 == before.1 {
                let k = choose|k: int|
                    0 <= k < f.len() && before.1 == NewTxn::own_number_width(
                        (#[trigger] f[k]).postings,
                    );
                assert(txns[k] == f[k]);
            } else {
                assert(now.1 == NewTxn::own_number_width(txns[n].postings));
            }
        }
    }
}

} // verus!
