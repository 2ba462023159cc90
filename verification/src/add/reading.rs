//! What reading a journal makes of its lines.

use vstd::prelude::*;
use crate::add::integrate::{self, Scopes};
use crate::add::parser::{self, Book, CommodityRead, Decl, State};
use crate::add::scope::{Origin, Rewrites};
use crate::add::walk::{self, Progress};
use crate::amount::Ctx;
use crate::calendar::{self, full, parts_dates, short, writes};
use crate::date::Day;
use crate::lex;
use crate::style::{self, Style};
use crate::text::{self, CharClass};

verus! {

// ---- postings ----

/// What rewrites account names rewrites the account of a posting and nothing
/// else of it, and hides no posting.
pub proof fn only_the_account_is_rewritten(l: Seq<char>, scope: Rewrites)
    ensures
        match parser::parse_posting_spec(l, Rewrites::none()) {
            None => parser::parse_posting_spec(l, scope) is None,
            Some(p) => parser::parse_posting_spec(l, scope) matches Some(q) && q.account
                == scope.resolve(p.account) && q.amount == p.amount && q.commodity == p.commodity
                && q.comment == p.comment,
        },
{
}

/// A status marker is no part of a description or an account.
pub proof fn a_status_marker_is_dropped(d: Seq<char>)
    requires
        d.len() > 0,
        !text::is_white(d[0]),
    ensures
        lex::strip_status_spec("* "@ + d) == d,
        lex::strip_status_spec("! "@ + d) == d,
        d[0] != '*' && d[0] != '!' ==> lex::strip_status_spec(d) == d,
{
    reveal_strlit("* ");
    reveal_strlit("! ");
    let white = CharClass::White;
    lemma_marked('*', d);
    lemma_marked('!', d);
    assert("* "@ + d =~= seq!['*', ' '] + d);
    assert("! "@ + d =~= seq!['!', ' '] + d);
    text::lemma_run_is(d, white, true, 0);
    assert(d.skip(0) =~= d);
}

proof fn lemma_marked(c: char, d: Seq<char>)
    requires
        c == '*' || c == '!',
        d.len() > 0,
        !text::is_white(d[0]),
    ensures
        lex::strip_status_spec(seq![c, ' '] + d) == d,
{
    let s = seq![c, ' '] + d;
    let white = CharClass::White;
    text::lemma_run_is(s, white, true, 0);
    assert(s.skip(0) =~= s);
    let t = s.skip(1);
    assert(t[0] == ' ');
    assert(t[1] == d[0]);
    text::lemma_run_is(t, white, true, 1);
    assert(t.skip(1) =~= d);
}

// ---- headers ----

/// A transaction is of the date that its header starts with. A full date is taken
/// as it is; one without a year is of the year in effect.
pub proof fn a_header_dates_its_transaction(
    y: Seq<char>,
    p: char,
    m: Seq<char>,
    q: char,
    d: Seq<char>,
    rest: Seq<char>,
    day: Day,
    state: State,
    this_year: i32,
    pos: usize,
)
    requires
        calendar::parts_dates(p),
        calendar::parts_dates(q),
        calendar::writes(y, day.year),
        calendar::writes(m, day.month),
        calendar::writes(d, day.day),
        day.is_real(),
        !rest.contains(';'),
        rest.len() > 0 ==> !text::is_white(rest.last()),
    ensures
        ({
            let none = Seq::<Seq<char>>::empty();
            let year = match state.year {
                Some(y) => y as int,
                None => this_year as int,
            };
            let then = Day { year, ..day };
            &&& parser::parse_transaction_spec(
                calendar::full(y, p, m, q, d) + seq![' '] + rest,
                none,
                0,
                0,
                pos,
                state,
                this_year,
            ) matches Ok(t) && t.date == day && t.pos == pos
            &&& then.is_real() ==> (parser::parse_transaction_spec(
                calendar::short(m, p, d) + seq![' '] + rest,
                none,
                0,
                0,
                pos,
                state,
                this_year,
            ) matches Ok(t) && t.date == then)
        }),
{
    let none = Seq::<char>::empty();
    let year = match state.year {
        Some(y) => y as int,
        None => this_year as int,
    };
    calendar::lemma_full_dateish(y, p, m, q, d);
    calendar::lemma_short_dateish(m, p, d);
    lemma_header_parts(calendar::full(y, p, m, q, d), rest);
    lemma_header_parts(calendar::short(m, p, d), rest);
    calendar::a_written_date_is_taken_as_written(y, p, m, q, d, none, day, year);
    calendar::a_written_month_and_day_are_of_the_year(m, p, d, none, day.month, day.day, year);
    assert(calendar::full(y, p, m, q, d) + none =~= calendar::full(y, p, m, q, d));
    assert(calendar::short(m, p, d) + none =~= calendar::short(m, p, d));
}

/// The date of a header stands before its first space.
proof fn lemma_header_parts(s: Seq<char>, rest: Seq<char>)
    requires
        calendar::dateish(s),
        !rest.contains(';'),
        rest.len() > 0 ==> !text::is_white(rest.last()),
    ensures
        parser::header_parts(lex::split_comment_spec(s + seq![' '] + rest).0).0 == s,
{
    let h = s + seq![' '] + rest;
    let semi = CharClass::Is(';');
    let white = CharClass::White;
    let k = s.len() as int;
    assert forall|i: int| 0 <= i < h.len() implies semi.has(#[trigger] h[i]) == false by {
        if i < k {
            assert(h[i] == s[i]);
            assert(text::is_digit(s[i]) || calendar::parts_dates(s[i]));
        } else if i > k {
            assert(h[i] == rest[i - k - 1]);
            assert(rest.contains(rest[i - k - 1]));
        }
    }
    text::lemma_run_is(h, semi, false, h.len() as int);
    let r = lex::rstrip_spec(h);
    assert forall|i: int| 0 <= i < k implies white.has(#[trigger] s[i]) == false by {
        assert(text::is_digit(s[i]) || calendar::parts_dates(s[i]));
    }
    if rest.len() > 0 {
        assert(h.last() == rest.last());
        crate::fmt::reread::lemma_rstrip_plain(h);
        assert forall|i: int| 0 <= i < k implies white.has(#[trigger] h[i]) == false by {
            assert(h[i] == s[i]);
        }
        assert(h[k] == ' ');
        text::lemma_run_is(h, white, false, k);
        assert(h.take(k) =~= s);
    } else {
        assert(h =~= s + seq![' ']);
        assert(white.has(s[k - 1]) == false);
        assert(text::all_spec(seq![' '], white));
        crate::fmt::reread::lemma_rstrip_tail(s, seq![' ']);
        text::lemma_run_is(s, white, false, k);
    }
}

/// A `Y` directive sets the year of the dates without one that follow it.
pub proof fn a_year_directive_sets_the_year(
    book: Book,
    state: State,
    line: Seq<char>,
    shown: Seq<char>,
    at: Origin,
    pos: usize,
    y: int,
)
    requires
        parser::year_directive_spec(line) == Some(y),
        line.len() > 0,
        line[0] == 'Y' || line[0] == 'y',
    ensures
        walk::directive_spec(book, state, line, shown, at, pos).state == (State {
            year: Some(y as i32),
            ..state
        }),
        walk::directive_spec(book, state, line, shown, at, pos).book == book,
{
    reveal_strlit("account");
    reveal_strlit("commodity");
    reveal_strlit("payee");
    reveal_strlit("tag");
    reveal_strlit("decimal-mark");
    reveal_strlit("D");
    crate::fmt::laws::lemma_no_directive(line, "account"@);
    crate::fmt::laws::lemma_no_directive(line, "commodity"@);
    crate::fmt::laws::lemma_no_directive(line, "decimal-mark"@);
    crate::fmt::laws::lemma_no_directive(line, "D"@);
    lemma_no_rest(line, "payee"@);
    lemma_no_rest(line, "tag"@);
}

proof fn lemma_no_rest(l: Seq<char>, keyword: Seq<char>)
    requires
        keyword.len() > 0,
        l.len() == 0 || l[0] != keyword[0],
    ensures
        lex::directive_rest_spec(l, keyword) is None,
{
    if keyword.is_prefix_of(l) {
        assert(l[0] == keyword[0]);
    }
}

// ---- what is visible where ----

/// A name is visible at a position exactly where it is declared before it.
pub proof fn a_declaration_is_visible_behind_itself(
    ds: Seq<Decl>,
    pos: usize,
    name: Seq<char>,
)
    ensures
        parser::visible_at_spec(ds, pos).contains(name) <==> exists|i: int|
            0 <= i < ds.len() && (#[trigger] ds[i]).name == name && ds[i].pos < pos,
    decreases ds.len(),
{
    let v = parser::visible_at_spec(ds, pos);
    if ds.len() > 0 {
        let f = ds.drop_last();
        let n = ds.len() - 1;
        a_declaration_is_visible_behind_itself(f, pos, name);
        let before = parser::visible_at_spec(f, pos);
        if v.contains(name) {
            let i = choose|i: int| 0 <= i < v.len() && v[i] == name;
            if i < before.len() {
                assert(before[i] == name);
                let j = choose|j: int| 0 <= j < f.len() && (#[trigger] f[j]).name == name && f[j].pos
                    < pos;
                assert(ds[j] == f[j]);
            } else {
                assert(ds[n].name == name);
            }
        }
        if exists|i: int| 0 <= i < ds.len() && (#[trigger] ds[i]).name == name && ds[i].pos < pos {
            let i = choose|i: int|
                0 <= i < ds.len() && (#[trigger] ds[i]).name == name && ds[i].pos < pos;
            if i < n {
                assert(f[i] == ds[i]);
                assert(before.contains(name));
                let j = choose|j: int| 0 <= j < before.len() && before[j] == name;
                assert(v[j] == name);
            } else {
                assert(v[v.len() - 1] == name);
            }
        }
    }
}

/// The state at a line is the one recorded last at or before it; where none is,
/// it is the one at the end of the file.
pub proof fn the_last_state_before_a_line_counts(
    states: Seq<(usize, State)>,
    line: usize,
    at_eof: State,
    k: int,
)
    requires
        -1 <= k < states.len(),
        k >= 0 ==> states[k].0 <= line,
        forall|i: int| k < i < states.len() ==> (#[trigger] states[i]).0 > line,
    ensures
        parser::state_at_spec(states, line, at_eof) == (if k < 0 {
            at_eof
        } else {
            states[k].1
        }),
    decreases states.len(),
{
    if states.len() > 0 && k < states.len() - 1 {
        assert(states[states.len() - 1].0 > line);
        let f = states.drop_last();
        assert forall|i: int| k < i < f.len() implies (#[trigger] f[i]).0 > line by {
            assert(f[i] == states[i]);
        }
        the_last_state_before_a_line_counts(f, line, at_eof, k);
        if k >= 0 {
            assert(f[k] == states[k]);
        }
    }
}

/// What rewrites account names at a line of a file is what was recorded last at
/// or before it, and at the end of the file what holds there.
pub proof fn the_last_scope_before_a_line_counts(scopes: Scopes, line: int, k: int)
    requires
        -1 <= k < scopes.checkpoints.len(),
        k >= 0 ==> scopes.checkpoints[k].0 <= line,
        forall|i: int|
            k < i < scopes.checkpoints.len() ==> (#[trigger] scopes.checkpoints[i]).0 > line,
    ensures
        scopes.at(Some(line)) == (if k < 0 {
            scopes.at_eof
        } else {
            scopes.checkpoints[k].1
        }),
        scopes.at(None) == scopes.at_eof,
{
    lemma_scope_at(scopes.checkpoints, line, scopes.at_eof, k);
}

proof fn lemma_scope_at(
    checkpoints: Seq<(usize, Rewrites)>,
    line: int,
    at_eof: Rewrites,
    k: int,
)
    requires
        -1 <= k < checkpoints.len(),
        k >= 0 ==> checkpoints[k].0 <= line,
        forall|i: int| k < i < checkpoints.len() ==> (#[trigger] checkpoints[i]).0 > line,
    ensures
        integrate::scope_at(checkpoints, line, at_eof) == (if k < 0 {
            at_eof
        } else {
            checkpoints[k].1
        }),
    decreases checkpoints.len(),
{
    if checkpoints.len() > 0 && k < checkpoints.len() - 1 {
        assert(checkpoints[checkpoints.len() - 1].0 > line);
        let f = checkpoints.drop_last();
        assert forall|i: int| k < i < f.len() implies (#[trigger] f[i]).0 > line by {
            assert(f[i] == checkpoints[i]);
        }
        lemma_scope_at(f, line, at_eof, k);
        if k >= 0 {
            assert(f[k] == checkpoints[k]);
        }
    }
}

// ---- styles ----

/// What is declared outside a stretch of the journal has no part in the styles
/// of that stretch.
pub proof fn styles_come_from_their_stretch(book: Book, lo: usize, hi: usize)
    requires
        forall|i: int|
            0 <= i < book.defaults.len() ==> !(lo <= (#[trigger] book.defaults[i]).pos < hi),
        forall|i: int|
            0 <= i < book.commodities.len() ==> !(lo <= (#[trigger] book.commodities[i]).pos < hi),
    ensures
        book.styles_between(lo, hi) == Ctx::bare(),
{
    lemma_no_defaults(book.defaults, lo, hi);
    lemma_no_commodities(Ctx::bare(), book.commodities, lo, hi);
}

proof fn lemma_no_defaults(ds: Seq<Decl>, lo: usize, hi: usize)
    requires
        forall|i: int| 0 <= i < ds.len() ==> !(lo <= (#[trigger] ds[i]).pos < hi),
    ensures
        parser::defaults_between(ds, lo, hi) == Ctx::bare(),
    decreases ds.len(),
{
    if ds.len() > 0 {
        let f = ds.drop_last();
        assert forall|i: int| 0 <= i < f.len() implies !(lo <= (#[trigger] f[i]).pos < hi) by {
            assert(f[i] == ds[i]);
        }
        lemma_no_defaults(f, lo, hi);
        assert(!(lo <= ds[ds.len() - 1].pos < hi));
    }
}

proof fn lemma_no_commodities(start: Ctx, cs: Seq<CommodityRead>, lo: usize, hi: usize)
    requires
        forall|i: int| 0 <= i < cs.len() ==> !(lo <= (#[trigger] cs[i]).pos < hi),
    ensures
        parser::commodities_between(start, cs, lo, hi) == start,
    decreases cs.len(),
{
    if cs.len() > 0 {
        let f = cs.drop_last();
        assert forall|i: int| 0 <= i < f.len() implies !(lo <= (#[trigger] f[i]).pos < hi) by {
            assert(f[i] == cs[i]);
        }
        lemma_no_commodities(start, f, lo, hi);
        assert(!(lo <= cs[cs.len() - 1].pos < hi));
    }
}

/// The last `commodity` directive of a stretch decides the style of its
/// commodity, over any `D` directive and any earlier one.
pub proof fn the_last_commodity_directive_counts(
    book: Book,
    c: CommodityRead,
    sample: Seq<char>,
    name: Seq<char>,
    st: Style,
    lo: usize,
    hi: usize,
)
    requires
        c.sample == Some(sample),
        style::style_from_sample_spec(sample) == Some((name, st)),
        lo <= c.pos < hi,
    ensures
        (Book { commodities: book.commodities.push(c), ..book }).styles_between(lo, hi).style_of(
            name,
        ) == Some(st),
{
    let cs = book.commodities.push(c);
    assert(cs.drop_last() =~= book.commodities);
    assert(cs.last() == c);
}

// ---- lines of a file ----

/// What stands in a `comment` block is prose: nothing is declared by it and no
/// transaction is read, whatever it looks like.
pub proof fn prose_declares_nothing(w: Progress)
    requires
        w.stack.len() > 0,
        w.stack.last().opaque,
        w.stack.last().at < w.stack.last().lines.len(),
    ensures
        w.read().0.book == w.book,
        w.read().0.stack.last().state == w.stack.last().state,
        w.read().0.stack.last().opaque == !lex::closes_block_spec(
            w.stack.last().lines[w.stack.last().at],
        ),
{
}

proof fn lemma_run(ls: Seq<Seq<char>>)
    ensures
        0 <= walk::indented_run(ls) <= ls.len(),
        forall|i: int| 0 <= i < walk::indented_run(ls) ==> lex::is_indented_spec(#[trigger] ls[i]),
        walk::indented_run(ls) < ls.len() ==> !lex::is_indented_spec(ls[walk::indented_run(ls)]),
    decreases ls.len(),
{
    if ls.len() > 0 && lex::is_indented_spec(ls[0]) {
        let more = ls.skip(1);
        lemma_run(more);
        let n = walk::indented_run(ls);
        assert forall|i: int| 0 <= i < n implies lex::is_indented_spec(#[trigger] ls[i]) by {
            if i > 0 {
                assert(more[i - 1] == ls[i]);
            }
        }
        if n < ls.len() {
            assert(more[n - 1] == ls[n]);
        }
    }
}

/// A transaction is read where it stands, with all the indented lines that follow
/// it and no other, in the state in effect there. It is recorded behind those read
/// before it, at the position that the walk has come to, and declares nothing; one
/// that cannot be read leaves a warning and nothing else.
pub proof fn a_transaction_is_recorded_where_it_stands(w: Progress)
    requires
        w.stack.len() > 0,
        0 <= w.stack.last().at < w.stack.last().lines.len(),
        !w.stack.last().opaque,
        ({
            let line = w.stack.last().lines[w.stack.last().at];
            lex::opens_txn_spec(line) && !lex::opens_block_spec(line)
        }),
    ensures
        ({
            let top = w.stack.last();
            let after = w.read().0;
            let next = after.stack.last().at;
            &&& top.at < next <= top.lines.len()
            &&& forall|i: int|
                top.at < i < next ==> lex::is_indented_spec(#[trigger] top.lines[i])
            &&& next < top.lines.len() ==> !lex::is_indented_spec(top.lines[next])
            &&& after.stack.last().state == top.state
            &&& after.book.accounts == w.book.accounts
            &&& after.book.commodities == w.book.commodities
            &&& after.book.payees == w.book.payees
            &&& match parser::parse_transaction_spec(
                top.lines[top.at],
                top.lines.subrange(top.at + 1, next),
                top.file,
                (top.at + 1) as usize,
                w.pos,
                top.state,
                w.this_year,
            ) {
                Ok(t) => after.book.transactions == w.book.transactions.push(t)
                    && after.book.warnings == w.book.warnings && t.pos == w.pos,
                Err(_) => after.book.transactions == w.book.transactions
                    && after.book.warnings.len() == w.book.warnings.len() + 1,
            }
        }),
{
    let top = w.stack.last();
    let line = top.lines[top.at];
    let tail = top.lines.skip(top.at + 1);
    lemma_run(tail);
    let n = walk::indented_run(tail);
    let next = top.at + 1 + n;
    assert(!lex::is_indented_spec(line)) by {
        if lex::is_indented_spec(line) {
            crate::fmt::laws::lemma_indented_kind(line);
        }
    }
    assert forall|i: int| top.at < i < next implies lex::is_indented_spec(
        #[trigger] top.lines[i],
    ) by {
        assert(tail[i - top.at - 1] == top.lines[i]);
    }
    if next < top.lines.len() {
        assert(tail[n] == top.lines[next]);
    }
}

/// An `account` directive declares the account that its name means there, and
/// nothing else.
pub proof fn an_account_directive_declares_its_account(
    book: Book,
    state: State,
    line: Seq<char>,
    shown: Seq<char>,
    at: Origin,
    pos: usize,
    name: Seq<char>,
)
    requires
        lex::directive_arg_spec(line, "account"@) == Some(name),
    ensures
        walk::directive_spec(book, state, line, shown, at, pos).book == (Book {
            accounts: book.accounts.push(Decl { name: state.scope.resolve(name), pos }),
            ..book
        }),
        walk::directive_spec(book, state, line, shown, at, pos).state == state,
        pos < usize::MAX ==> parser::visible_at_spec(
            walk::directive_spec(book, state, line, shown, at, pos).book.accounts,
            (pos + 1) as usize,
        ).contains(state.scope.resolve(name)),
{
    let ds = book.accounts.push(Decl { name: state.scope.resolve(name), pos });
    if pos < usize::MAX {
        assert(ds[ds.len() - 1].name == state.scope.resolve(name));
        a_declaration_is_visible_behind_itself(
            ds,
            (pos + 1) as usize,
            state.scope.resolve(name),
        );
    }
}

} // verus!
