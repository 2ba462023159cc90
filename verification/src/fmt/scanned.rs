//! Why formatting leaves the declared styles of a text alone.

use vstd::prelude::*;
use crate::amount::Ctx;
use crate::fmt::{self, Classify, Options, Scan};
use crate::fmt::blank::{self, Block};
use crate::fmt::explicit::Line;
use crate::fmt::laws;
use crate::fmt::settle;
use crate::fmt::shape;
use crate::lex;
use crate::numerals;
use crate::style;
use crate::text::{self, CharClass};
use crate::tokens;

verus! {

// ---- the styles that a text declares ----

/// A number that shows a style shows one with marks.
proof fn lemma_style_of_number(num: Seq<char>, side: style::Side, spaced: bool)
    ensures
        style::style_of_number_spec(num, side, spaced) matches Some(s) ==> numerals::punctuated(s),
{
    if let Some(p) = style::split_number_spec(num, None) {
        let n = text::trim_spec(num, CharClass::White);
        text::lemma_run_back(n, CharClass::Mark, false);
        text::lemma_run(p.whole, CharClass::Grouping(p.mark), false);
    }
}

proof fn lemma_style_from_sample(sample: Seq<char>)
    ensures
        style::style_from_sample_spec(sample) matches Some((name, s)) ==> numerals::punctuated(s),
{
    let toks = text::words_spec(sample);
    if toks.len() == 1 {
        let t = toks[0];
        if let (Some(start), Some(end)) = (
            text::find_spec(t, CharClass::Digit),
            text::rfind_spec(t, CharClass::Digit),
        ) {
            let digits = t.subrange(start, end + 1);
            lemma_style_of_number(digits, style::Side::Left, false);
            lemma_style_of_number(digits, style::Side::Right, false);
        }
    } else if toks.len() == 2 {
        lemma_style_of_number(toks[0], style::Side::Right, true);
        lemma_style_of_number(toks[1], style::Side::Left, true);
    }
}

/// Whether every style of a map is one with marks.
pub open spec fn all_punctuated(m: Map<Seq<char>, style::Style>) -> bool {
    forall|name: Seq<char>| m.dom().contains(name) ==> numerals::punctuated(#[trigger] m[name])
}

proof fn lemma_scan_step(st: Scan, l: Seq<char>)
    requires
        all_punctuated(st.declared),
        all_punctuated(st.defaults),
    ensures
        all_punctuated(st.step(l).declared),
        all_punctuated(st.step(l).defaults),
{
    if let Some(sample) = lex::directive_arg_spec(
        text::trim_start_spec(l, CharClass::White),
        "format"@,
    ) {
        lemma_style_from_sample(sample);
    }
    if let Some(sample) = lex::directive_arg_spec(l, "commodity"@) {
        lemma_style_from_sample(sample);
    }
    if let Some(sample) = lex::directive_arg_spec(l, "D"@) {
        lemma_style_from_sample(sample);
    }
}

proof fn lemma_scan_over(ls: Seq<Seq<char>>)
    ensures
        all_punctuated(Scan::over(ls).declared),
        all_punctuated(Scan::over(ls).defaults),
    decreases ls.len(),
{
    if ls.len() > 0 {
        lemma_scan_over(ls.drop_last());
        lemma_scan_step(Scan::over(ls.drop_last()), ls.last());
    }
}

/// The styles that a text declares write numbers with marks alone.
pub proof fn lemma_scanned_clean(ls: Seq<Seq<char>>)
    ensures
        settle::clean(fmt::scan_ctx_spec(ls)),
{
    lemma_scan_over(ls);
    let scan = Scan::over(ls);
    let ctx = fmt::scan_ctx_spec(ls);
    assert forall|name: Seq<char>| ctx.styles.dom().contains(name) implies numerals::punctuated(
        #[trigger] ctx.styles[name],
    ) by {
        if scan.declared.dom().contains(name) {
            assert(ctx.styles[name] == scan.declared[name]);
        } else {
            assert(ctx.styles[name] == scan.defaults[name]);
        }
    }
}

// ---- reading on ----

/// Reading on from a point.
pub open spec fn scan_on(st: Scan, ls: Seq<Seq<char>>) -> Scan
    decreases ls.len(),
{
    if ls.len() == 0 {
        st
    } else {
        scan_on(st, ls.drop_last()).step(ls.last())
    }
}

pub proof fn lemma_over_is_on(ls: Seq<Seq<char>>)
    ensures
        Scan::over(ls) == scan_on(Scan::start(), ls),
    decreases ls.len(),
{
    if ls.len() > 0 {
        lemma_over_is_on(ls.drop_last());
    }
}

pub proof fn lemma_on_concat(st: Scan, a: Seq<Seq<char>>, b: Seq<Seq<char>>)
    ensures
        scan_on(st, a + b) == scan_on(scan_on(st, a), b),
    decreases b.len(),
{
    if b.len() == 0 {
        assert(a + b =~= a);
    } else {
        lemma_on_concat(st, a, b.drop_last());
        assert((a + b).drop_last() =~= a + b.drop_last());
        assert((a + b).last() == b.last());
    }
}

pub proof fn lemma_on_front(st: Scan, ls: Seq<Seq<char>>)
    requires
        ls.len() > 0,
    ensures
        scan_on(st, ls) == scan_on(st.step(ls[0]), ls.skip(1)),
{
    let one = seq![ls[0]];
    lemma_on_concat(st, one, ls.skip(1));
    assert(one + ls.skip(1) =~= ls);
    assert(one.drop_last() =~= Seq::empty());
    assert(scan_on(st, one.drop_last()) == st);
    assert(scan_on(st, one) == st.step(one.last()));
}

/// A blank line only ends the block of a directive.
pub proof fn lemma_blank_step(st: Scan, l: Seq<char>)
    requires
        !st.opaque,
        lex::is_blank_spec(l),
    ensures
        st.step(l) == (Scan { block: None, ..st }),
{
    reveal_strlit("comment");
    reveal_strlit("commodity");
    reveal_strlit("D");
    crate::fmt::reread::lemma_rstrip(l);
    if l.len() > 0 {
        assert(text::is_white(l[0]));
    }
    laws::lemma_no_directive(l, "commodity"@);
    laws::lemma_no_directive(l, "D"@);
}

/// A line that is not indented and opens no `comment` block is read the same
/// whatever block it ends.
proof fn lemma_reset_step(st: Scan, l: Seq<char>)
    requires
        !st.opaque,
        !lex::is_indented_spec(l),
    ensures
        st.step(l) == (Scan { block: None, ..st }).step(l),
{
}

/// A comment line declares nothing and opens nothing.
proof fn lemma_comment_step(st: Scan, l: Seq<char>)
    requires
        !st.opaque,
        lex::is_comment_spec(l),
    ensures
        st.step(l) == (Scan { block: None, ..st }),
{
    reveal_strlit("comment");
    reveal_strlit("commodity");
    reveal_strlit("D");
    crate::fmt::reread::lemma_rstrip(l);
    assert(!text::is_white(l[0]));
    assert(!lex::is_indented_spec(l));
    if lex::opens_block_spec(l) {
        assert(lex::rstrip_spec(l)[0] == l[0]);
    }
    laws::lemma_no_directive(l, "commodity"@);
    laws::lemma_no_directive(l, "D"@);
}

proof fn lemma_comments_on(st: Scan, cs: Seq<Seq<char>>)
    requires
        !st.opaque,
        forall|i: int| 0 <= i < cs.len() ==> lex::is_comment_spec(#[trigger] cs[i]),
    ensures
        scan_on(st, cs) == st || scan_on(st, cs) == (Scan { block: None, ..st }),
    decreases cs.len(),
{
    if cs.len() > 0 {
        let f = cs.drop_last();
        assert forall|i: int| 0 <= i < f.len() implies lex::is_comment_spec(#[trigger] f[i]) by {
            assert(f[i] == cs[i]);
        }
        lemma_comments_on(st, f);
        assert(lex::is_comment_spec(cs[cs.len() - 1]));
        lemma_comment_step(scan_on(st, f), cs.last());
    }
}

/// Indented lines open nothing, and change nothing where no directive is open.
pub proof fn lemma_indented_on(st: Scan, ls: Seq<Seq<char>>)
    requires
        !st.opaque,
        forall|i: int| 0 <= i < ls.len() ==> lex::is_indented_spec(#[trigger] ls[i]),
    ensures
        !scan_on(st, ls).opaque,
        st.block is None ==> scan_on(st, ls) == st,
    decreases ls.len(),
{
    if ls.len() > 0 {
        let f = ls.drop_last();
        assert forall|i: int| 0 <= i < f.len() implies lex::is_indented_spec(#[trigger] f[i]) by {
            assert(f[i] == ls[i]);
        }
        lemma_indented_on(st, f);
        let l = ls[ls.len() - 1];
        assert(lex::is_indented_spec(l));
        assert(!lex::opens_block_spec(l)) by {
            reveal_strlit("comment");
            crate::fmt::reread::lemma_rstrip(l);
            if lex::opens_block_spec(l) {
                assert(lex::rstrip_spec(l)[0] == l[0]);
            }
        }
    }
}

/// Inside a `comment` block nothing is read, and its last line ends it.
proof fn lemma_opaque_on(st: Scan, ls: Seq<Seq<char>>)
    requires
        st.opaque,
        lex::block_len_spec(ls) == ls.len(),
    ensures
        scan_on(st, ls) == (Scan { opaque: !shape::closed(ls), ..st }),
    decreases ls.len(),
{
    if ls.len() > 0 {
        lemma_on_front(st, ls);
        if lex::closes_block_spec(ls[0]) {
            assert(ls.skip(1) =~= Seq::empty());
            assert(ls.last() == ls[0]);
        } else {
            let t = ls.skip(1);
            lemma_opaque_on(st, t);
            if t.len() > 0 {
                assert(t.last() == ls.last());
            } else {
                assert(ls.last() == ls[0]);
            }
            assert(st.step(ls[0]) == st);
        }
    }
}

/// Where reading on over a block leads.
pub proof fn lemma_block_on(st: Scan, b: Block)
    requires
        shape::valid(b),
        !st.opaque,
    ensures
        ({
            let k = shape::lead(b.lines);
            let end = scan_on(st, b.lines);
            &&& end.opaque ==> k < b.lines.len() && lex::opens_block_spec(b.lines[k])
                && !shape::closed(b.lines.skip(k + 1))
            &&& b.txn ==> end == (Scan { block: None, ..st })
        }),
{
    let ls = b.lines;
    let k = shape::lead(ls);
    shape::lemma_lead(ls);
    let cs = ls.take(k);
    assert forall|i: int| 0 <= i < cs.len() implies lex::is_comment_spec(#[trigger] cs[i]) by {
        assert(cs[i] == ls[i]);
    }
    lemma_comments_on(st, cs);
    let mid = scan_on(st, cs);
    if k < ls.len() {
        let head = ls[k];
        let body = ls.skip(k + 1);
        let after = mid.step(head);
        assert(ls =~= cs + (seq![head] + body));
        lemma_on_concat(st, cs, seq![head] + body);
        lemma_on_front(mid, seq![head] + body);
        assert((seq![head] + body).skip(1) =~= body);
        assert((seq![head] + body)[0] == head);
        if lex::opens_block_spec(head) {
            lemma_opaque_on(after, body);
            assert(!b.txn) by {
                reveal_strlit("comment");
                crate::fmt::reread::lemma_rstrip(head);
                assert(lex::rstrip_spec(head)[0] == head[0]);
            }
        } else {
            lemma_indented_on(after, body);
            if b.txn {
                reveal_strlit("commodity");
                reveal_strlit("D");
                laws::lemma_no_directive(head, "commodity"@);
                laws::lemma_no_directive(head, "D"@);
                assert(!lex::is_indented_spec(head));
            }
        }
    } else {
        assert(cs =~= ls);
    }
}

// ---- blocks ----

/// Whether two points declare the same.
pub open spec fn agrees(a: Scan, b: Scan) -> bool {
    a.declared == b.declared && a.defaults == b.defaults
}

/// Reading on over blocks, with a blank line before those that have one.
pub open spec fn blocks_on(st: Scan, bs: Seq<Block>) -> Scan
    decreases bs.len(),
{
    if bs.len() == 0 {
        st
    } else {
        let at = if bs[0].blank_before {
            st.step(Seq::empty())
        } else {
            st
        };
        blocks_on(scan_on(at, bs[0].lines), bs.skip(1))
    }
}

proof fn lemma_blocks_cons(st: Scan, b: Block, bs: Seq<Block>)
    ensures
        blocks_on(st, seq![b] + bs) == blocks_on(
            scan_on(
                if b.blank_before {
                    st.step(Seq::empty())
                } else {
                    st
                },
                b.lines,
            ),
            bs,
        ),
{
    let all = seq![b] + bs;
    assert(all.skip(1) =~= bs);
    assert(all[0] == b);
}

/// Reading a text declares what reading its blocks does.
#[verifier::rlimit(40)]
proof fn lemma_text_and_blocks(
    st: Scan,
    rest: Seq<Seq<char>>,
    pending: Seq<Seq<char>>,
    b: bool,
)
    requires
        !st.opaque,
        b ==> st.block is None,
        forall|i: int| 0 <= i < pending.len() ==> lex::is_comment_spec(#[trigger] pending[i]),
    ensures
        agrees(scan_on(st, pending + rest), blocks_on(st, blank::parse_spec(rest, pending, b))),
    decreases rest.len(),
{
    let none = Seq::<Seq<char>>::empty();
    let bs = blank::parse_spec(rest, pending, b);
    let alone = Block { txn: false, lines: pending, blank_before: b };
    assert(lex::is_blank_spec(Seq::<char>::empty()));
    lemma_blank_step(st, Seq::empty());
    assert(b ==> st.step(Seq::empty()) == st);
    if rest.len() == 0 {
        assert(pending + rest =~= pending);
        if pending.len() > 0 {
            assert(bs =~= seq![alone] + Seq::empty());
            lemma_blocks_cons(st, alone, Seq::empty());
        } else {
            assert(bs =~= Seq::empty());
        }
    } else {
        let line = rest[0];
        let tail = rest.skip(1);
        if lex::is_blank_spec(line) {
            let more = blank::parse_spec(tail, none, true);
            lemma_comments_on(st, pending);
            let s1 = scan_on(st, pending);
            lemma_blank_step(s1, line);
            let s2 = s1.step(line);
            assert(pending + rest =~= pending + (seq![line] + tail));
            lemma_on_concat(st, pending, seq![line] + tail);
            lemma_on_front(s1, seq![line] + tail);
            assert((seq![line] + tail).skip(1) =~= tail);
            lemma_text_and_blocks(s2, tail, none, true);
            assert(none + tail =~= tail);
            lemma_blank_step(s1, Seq::empty());
            lemma_blank_step(s2, Seq::empty());
            shape::lemma_first(tail, none, true);
            assert(agrees(blocks_on(s1, more), blocks_on(s2, more)));
            if pending.len() > 0 {
                assert(bs =~= seq![alone] + more);
                lemma_blocks_cons(st, alone, more);
            } else {
                assert(bs =~= more);
                assert(s1 == st);
            }
        } else if lex::is_comment_spec(line) {
            let p = pending.push(line);
            assert forall|i: int| 0 <= i < p.len() implies lex::is_comment_spec(#[trigger] p[i]) by {
                if i < pending.len() {
                    assert(p[i] == pending[i]);
                }
            }
            lemma_text_and_blocks(st, tail, p, b);
            assert(p + tail =~= pending + rest);
        } else {
            blank::lemma_body_len(line, tail);
            let n = blank::body_len_spec(line, tail);
            let body = tail.take(n);
            let after = tail.skip(n);
            let blk = Block {
                txn: lex::opens_txn_spec(line),
                lines: pending.push(line) + body,
                blank_before: b,
            };
            let more = blank::parse_spec(after, none, false);
            assert(bs =~= seq![blk] + more);
            lemma_blocks_cons(st, blk, more);
            let end = scan_on(st, blk.lines);
            assert(pending + rest =~= blk.lines + after);
            lemma_on_concat(st, blk.lines, after);
            shape::lemma_parse_chain(rest, pending, b);
            assert(shape::valid(bs[0]));
            assert(bs[0] == blk);
            lemma_block_on(st, blk);
            if end.opaque {
                let k = shape::lead(blk.lines);
                assert forall|i: int| 0 <= i < pending.len() implies lex::is_comment_spec(
                    #[trigger] blk.lines[i],
                ) by {
                    assert(blk.lines[i] == pending[i]);
                }
                assert(blk.lines[pending.len() as int] == line);
                shape::lemma_lead_is(blk.lines, pending.len() as int);
                assert(blk.lines.skip(k + 1) =~= body);
                shape::lemma_unclosed(tail);
                assert(after =~= none);
                assert(more =~= Seq::empty());
            } else {
                lemma_text_and_blocks(end, after, none, false);
                assert(none + after =~= after);
            }
        }
    }
}

/// Reading the lines of blocks declares what reading the blocks does.
proof fn lemma_follow_and_blocks(st: Scan, prev: Block, bs: Seq<Block>)
    requires
        shape::chain(bs),
        bs.len() > 0 ==> !st.opaque,
        prev.txn ==> st.block is None,
    ensures
        agrees(scan_on(st, shape::follow(prev, bs)), blocks_on(st, bs)),
    decreases bs.len(),
{
    if bs.len() > 0 {
        let b = bs[0];
        let more = bs.skip(1);
        shape::lemma_chain_skip(bs);
        let gap = blank::gap_spec(prev, b);
        let after = shape::follow(b, more);
        let empty = Seq::<char>::empty();
        assert(lex::is_blank_spec(empty));
        lemma_blank_step(st, empty);
        let a = scan_on(st, gap);
        assert(a == if gap.len() > 0 {
            st.step(empty)
        } else {
            st
        }) by {
            if gap.len() > 0 {
                lemma_on_front(st, gap);
                assert(gap.skip(1) =~= Seq::empty());
            }
        }
        let at = if b.blank_before {
            st.step(empty)
        } else {
            st
        };
        // A blank line that is put in ends no directive.
        assert(scan_on(a, b.lines) == scan_on(at, b.lines)) by {
            if gap.len() > 0 && !b.blank_before {
                if prev.txn {
                    assert(a == at);
                } else {
                    assert(b.txn);
                    let first = b.lines[0];
                    shape::lemma_lead(b.lines);
                    assert(!lex::is_indented_spec(first)) by {
                        if shape::lead(b.lines) > 0 {
                            assert(lex::is_comment_spec(b.lines[0]));
                        }
                        if lex::is_indented_spec(first) {
                            assert(text::is_white(first[0]));
                        }
                    }
                    lemma_reset_step(st, first);
                    lemma_on_front(a, b.lines);
                    lemma_on_front(at, b.lines);
                }
            }
        }
        let end = scan_on(at, b.lines);
        assert(shape::follow(prev, bs) =~= gap + (b.lines + after));
        lemma_on_concat(st, gap, b.lines + after);
        lemma_on_concat(a, b.lines, after);
        lemma_block_on(at, b);
        lemma_follow_and_blocks(end, b, more);
    }
}

/// Normalizing blank lines leaves the declared styles alone.
pub proof fn normalizing_keeps_the_styles(ls: Seq<Seq<char>>)
    ensures
        fmt::scan_ctx_spec(blank::normalize_spec(ls)) == fmt::scan_ctx_spec(ls),
{
    let none = Seq::<Seq<char>>::empty();
    let st = Scan::start();
    let bs = blank::parse_spec(ls, none, false);
    lemma_over_is_on(ls);
    lemma_over_is_on(blank::normalize_spec(ls));
    lemma_text_and_blocks(st, ls, none, false);
    assert(none + ls =~= ls);
    shape::lemma_parse_chain(ls, none, false);
    if bs.len() > 0 {
        shape::lemma_join_front(bs);
        shape::lemma_chain_skip(bs);
        let b = bs[0];
        let more = bs.skip(1);
        lemma_on_concat(st, b.lines, shape::follow(b, more));
        assert(lex::is_blank_spec(Seq::<char>::empty()));
        lemma_blank_step(st, Seq::empty());
        let end = scan_on(st, b.lines);
        lemma_block_on(st, b);
        lemma_follow_and_blocks(end, b, more);
    } else {
        assert(blank::normalize_spec(ls) =~= none);
    }
}

// ---- lines ----

/// A line and what it is written as declare the same.
pub proof fn lemma_written_step(
    acc_w: nat,
    num_w: nat,
    st: Scan,
    at: Classify,
    l: Seq<char>,
    ctx: Ctx,
    opts: Options,
)
    requires
        settle::clean(fmt::marked(ctx, at.mark)),
        !l.contains('\n'),
        st.opaque == at.opaque,
        at.in_txn ==> st.block is None,
    ensures
        ({
            let w = laws::line_of(acc_w, num_w, l, laws::class_of(at, l, ctx, opts));
            let next = at.step(l, ctx, opts);
            &&& st.step(w) == st.step(l)
            &&& st.step(l).opaque == next.opaque
            &&& next.in_txn ==> st.step(l).block is None
        }),
{
    let c = laws::class_of(at, l, ctx, opts);
    let w = laws::line_of(acc_w, num_w, l, c);
    laws::lemma_line_kind(acc_w, num_w, at, l, ctx, opts);
    reveal_strlit("commodity");
    reveal_strlit("D");
    match c {
        Line::Opaque => {},
        Line::Post(_) => {},
        Line::Other => {
            if lex::is_blank_spec(l) {
                lemma_blank_step(st, l);
                lemma_blank_step(st, w);
            } else if lex::opens_txn_spec(l) {
                assert(w.len() > 0);
                laws::lemma_no_directive(l, "commodity"@);
                laws::lemma_no_directive(l, "D"@);
                laws::lemma_no_directive(w, "commodity"@);
                laws::lemma_no_directive(w, "D"@);
            }
        },
    }
}

/// Formatted lines declare what the lines do.
pub proof fn lemma_written_scan(
    acc_w: nat,
    num_w: nat,
    ls: Seq<Seq<char>>,
    ws: Seq<Seq<char>>,
    ctx: Ctx,
    opts: Options,
    n: int,
)
    requires
        !opts.explicit,
        settle::clean(ctx),
        forall|i: int| 0 <= i < ls.len() ==> !(#[trigger] ls[i]).contains('\n'),
        ws == Seq::new(
            ls.len(),
            |i: int| laws::line_of(acc_w, num_w, ls[i], fmt::styled_spec(ls, ctx, opts)[i]),
        ),
        0 <= n <= ls.len(),
    ensures
        Scan::over(ws.take(n)) == Scan::over(ls.take(n)),
        Scan::over(ls.take(n)).opaque == Classify::over(ls.take(n), ctx, opts).opaque,
        Classify::over(ls.take(n), ctx, opts).in_txn ==> Scan::over(ls.take(n)).block is None,
    decreases n,
{
    if n == 0 {
        assert(ls.take(0) =~= ws.take(0));
    } else {
        let m = n - 1;
        lemma_written_scan(acc_w, num_w, ls, ws, ctx, opts, m);
        let at = Classify::over(ls.take(m), ctx, opts);
        let st = Scan::over(ls.take(m));
        assert(ls.take(n).drop_last() =~= ls.take(m));
        assert(ls.take(n).last() == ls[m]);
        assert(ws.take(n).drop_last() =~= ws.take(m));
        assert(ws.take(n).last() == ws[m]);
        assert(settle::clean(fmt::marked(ctx, at.mark))) by {
            laws::lemma_marks(ls.take(m), ctx, opts);
        }
        assert(fmt::styled_spec(ls, ctx, opts)[m] == laws::class_of(at, ls[m], ctx, opts)) by {
            laws::lemma_classes(ls, ctx, opts);
        }
        lemma_written_step(acc_w, num_w, st, at, ls[m], ctx, opts);
        assert(Classify::over(ls.take(n), ctx, opts) == at.step(ls[m], ctx, opts)) by {
            laws::lemma_over(ls, ctx, opts, m);
        }
        assert(Scan::over(ls.take(n)) == st.step(ls[m]));
        assert(Scan::over(ws.take(n)) == st.step(ws[m]));
    }
}

/// Formatting leaves the declared styles of a text alone: what it writes
/// declares what the text declares.
pub proof fn formatting_keeps_the_styles(s: Seq<char>, ctx: Ctx)
    requires
        settle::clean(ctx),
    ensures
        ({
            let out = fmt::format_spec(s, ctx, Options { sort: false, explicit: false });
            fmt::scan_ctx_spec(fmt::lines_spec(out)) == fmt::scan_ctx_spec(fmt::lines_spec(s))
        }),
{
    let opts = Options { sort: false, explicit: false };
    let src = fmt::lines_spec(s);
    let ls = blank::normalize_spec(src);
    tokens::lemma_lines_hold_no_newline(s);
    laws::lemma_normal_without(src);
    normalizing_keeps_the_styles(src);
    let styled = fmt::styled_spec(ls, ctx, opts);
    let ps = fmt::all_posts(styled);
    let acc_w = fmt::account_width(ps);
    let num_w = fmt::number_width(ps);
    let ws = fmt::format_lines_spec(ls, ctx, opts);
    laws::lemma_format_lines(ls, ctx, opts);
    laws::lemma_classes(ls, ctx, opts);
    lemma_written_scan(acc_w, num_w, ls, ws, ctx, opts, ls.len() as int);
    assert(ls.take(ls.len() as int) =~= ls);
    assert(ws.take(ws.len() as int) =~= ws);
    assert forall|i: int| 0 <= i < ws.len() implies !(#[trigger] ws[i]).contains('\n') by {
        let at = Classify::over(ls.take(i), ctx, opts);
        laws::lemma_marks(ls.take(i), ctx, opts);
        assert(styled[i] == laws::class_of(at, ls[i], ctx, opts));
        laws::lemma_line_kind(acc_w, num_w, at, ls[i], ctx, opts);
    }
    tokens::lines_come_back(ws);
}

} // verus!
