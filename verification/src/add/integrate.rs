//! Placing new transactions in the file they are written to.

use vstd::prelude::*;
use vstd::string::*;
use crate::add::filemap::{self, FileMap, Mapped, Span, TxnSpan};
use crate::add::parser::{self, Journal, SourceFile};
use crate::add::scope::{self, Origin, Rewrites, Scope};
use crate::add::write::{Insertion, NewTransaction, NewTxn, WriteOptions};
use crate::amount::{AmountCtx, Ctx};
use crate::date::{self, Date, Day};
use crate::fmt::{self, Options};
use crate::fmt::posting;
use crate::fmt::tree;
use crate::lex;
use crate::restyle::Places;
use crate::text;

verus! {

// ---- scopes by line ----

/// What [`TargetScopes`] say.
#[verifier::ext_equal]
pub struct Scopes {
    pub checkpoints: Seq<(usize, Rewrites)>,
    pub at_eof: Rewrites,
}

/// The last checkpoint at or before a line, else what holds at the end.
pub open spec fn scope_at(
    checkpoints: Seq<(usize, Rewrites)>,
    line: int,
    at_eof: Rewrites,
) -> Rewrites
    decreases checkpoints.len(),
{
    if checkpoints.len() == 0 {
        at_eof
    } else if checkpoints.last().0 <= line {
        checkpoints.last().1
    } else {
        scope_at(checkpoints.drop_last(), line, at_eof)
    }
}

impl Scopes {
    pub open spec fn none() -> Scopes {
        Scopes { checkpoints: Seq::empty(), at_eof: Rewrites::none() }
    }

    /// The scope just before a line; `None` means end of file.
    pub open spec fn at(self, line: Option<int>) -> Rewrites {
        match line {
            None => self.at_eof,
            Some(line) => scope_at(self.checkpoints, line, self.at_eof),
        }
    }

    /// Whether anything anywhere rewrites account names.
    pub open spec fn any_active(self) -> bool {
        self.at_eof.active() || exists|i: int|
            0 <= i < self.checkpoints.len() && (#[trigger] self.checkpoints[i]).1.active()
    }
}

/// The `apply account` / `alias` scope of the write-target file, by line.
///
/// `insertion = append` lands at end of file, where an *unclosed* region may
/// still be open; `insertion = chronological` can land mid-file, inside a
/// region that is closed further down. Both are reachable, so the write path
/// needs the scope at an arbitrary line, not just at eof.
#[derive(Debug)]
pub struct TargetScopes {
    /// `(0-based line, scope in effect from there)`, ascending.
    pub checkpoints: Vec<(usize, Scope)>,
    /// The scope at end of file.
    pub at_eof: Scope,
}

pub open spec fn scope_checkpoints(v: Seq<(usize, Scope)>) -> Seq<(usize, Rewrites)> {
    v.map_values(|c: (usize, Scope)| (c.0, c.1@))
}

impl View for TargetScopes {
    type V = Scopes;

    open spec fn view(&self) -> Scopes {
        Scopes { checkpoints: scope_checkpoints(self.checkpoints@), at_eof: self.at_eof@ }
    }
}

impl Default for TargetScopes {
    fn default() -> (r: Self)
        ensures
            r@ == Scopes::none(),
    {
        let r = TargetScopes { checkpoints: Vec::new(), at_eof: Scope::default() };
        assert(r@ =~= Scopes::none());
        r
    }
}

impl TargetScopes {
    /// The scopes of a parsed source file.
    #[must_use]
    pub fn of(file: &SourceFile) -> (r: Self)
        ensures
            r@ == (Scopes {
                checkpoints: file@.states.map_values(
                    |c: (usize, parser::State)| (c.0, c.1.scope),
                ),
                at_eof: file@.state_at_eof.scope,
            }),
    {
        let mut checkpoints: Vec<(usize, Scope)> = Vec::new();
        let ghost want = file@.states.map_values(|c: (usize, parser::State)| (c.0, c.1.scope));
        let mut i: usize = 0;
        while i < file.states.len()
            invariant
                i <= file.states@.len(),
                want == file@.states.map_values(|c: (usize, parser::State)| (c.0, c.1.scope)),
                scope_checkpoints(checkpoints@) =~= want.take(i as int),
            decreases file.states@.len() - i,
        {
            let ghost before = scope_checkpoints(checkpoints@);
            let at: usize = file.states[i].0;
            checkpoints.push((at, file.states[i].1.scope.clone()));
            assert(scope_checkpoints(checkpoints@) =~= before.push(want[i as int]));
            i = i + 1;
        }
        assert(want.take(want.len() as int) =~= want);
        TargetScopes { checkpoints, at_eof: file.state_at_eof.scope.clone() }
    }

    /// The scopes of a file of a journal; none where it is no part of it.
    #[must_use]
    pub fn in_journal(journal: &Journal, canonical: &str) -> (r: Self)
        ensures
            r@ == (match parser::index_spec(journal@.files, canonical@) {
                Some(i) => Scopes {
                    checkpoints: journal@.files[i].states.map_values(
                        |c: (usize, parser::State)| (c.0, c.1.scope),
                    ),
                    at_eof: journal@.files[i].state_at_eof.scope,
                },
                None => Scopes::none(),
            }),
    {
        match journal.file(canonical) {
            Some(f) => TargetScopes::of(f),
            None => TargetScopes::default(),
        }
    }

    /// The scope in effect just before original 0-based `line`; `None` means
    /// end of file.
    fn at(&self, line: Option<usize>) -> (r: &Scope)
        ensures
            r@ == self@.at(
                match line {
                    Some(n) => Some(n as int),
                    None => None,
                },
            ),
    {
        let n: usize = match line {
            None => {
                return &self.at_eof;
            },
            Some(n) => n,
        };
        let ghost all = self@.checkpoints;
        let mut i: usize = self.checkpoints.len();
        assert(all.take(all.len() as int) =~= all);
        while i > 0
            invariant
                i <= self.checkpoints@.len(),
                all == self@.checkpoints,
                line == Some(n),
                scope_at(all, n as int, self@.at_eof) == scope_at(
                    all.take(i as int),
                    n as int,
                    self@.at_eof,
                ),
            decreases i,
        {
            assert(all.take(i as int).last() == (
                self.checkpoints@[i - 1].0,
                self.checkpoints@[i - 1].1@,
            ));
            assert(all.take(i as int).drop_last() =~= all.take(i - 1));
            i = i - 1;
            if self.checkpoints[i].0 <= n {
                return &self.checkpoints[i].1;
            }
        }
        &self.at_eof
    }

    /// Whether anything anywhere in this file rewrites account names — the
    /// cheap check for warning the user at session start.
    #[must_use]
    pub fn any_active(&self) -> (r: bool)
        ensures
            r == self@.any_active(),
    {
        if self.at_eof.is_active() {
            return true;
        }
        let ghost all = self@.checkpoints;
        let mut i: usize = 0;
        while i < self.checkpoints.len()
            invariant
                i <= self.checkpoints@.len(),
                all == self@.checkpoints,
                forall|j: int| 0 <= j < i ==> !(#[trigger] all[j]).1.active(),
            decreases self.checkpoints@.len() - i,
        {
            assert(all[i as int] == (
                self.checkpoints@[i as int].0,
                self.checkpoints@[i as int].1@,
            ));
            if self.checkpoints[i].1.is_active() {
                return true;
            }
            i = i + 1;
        }
        false
    }
}

// ---- inserting lines ----

/// Lines with a block inserted, one blank line between the block and any
/// neighbouring content.
pub open spec fn splice_spec(
    ls: Seq<Seq<char>>,
    at: int,
    block: Seq<Seq<char>>,
) -> Seq<Seq<char>> {
    let at = if at < ls.len() {
        at
    } else {
        ls.len() as int
    };
    let gap = seq![Seq::<char>::empty()];
    let lead = if at > 0 && !lex::is_blank_spec(ls[at - 1]) {
        gap
    } else {
        Seq::empty()
    };
    let trail = if at < ls.len() && !lex::is_blank_spec(ls[at]) {
        gap
    } else {
        Seq::empty()
    };
    ls.take(at) + lead + block + trail + ls.skip(at)
}

/// Insert `block` at line index `at`, managing blank-line separation: one
/// blank line between the block and any neighbouring content.
fn splice(ls: &mut Vec<String>, at: usize, block: &[String])
    ensures
        text::texts(final(ls)@) == splice_spec(
            text::texts(old(ls)@),
            at as int,
            text::texts(block@),
        ),
{
    let ghost all = text::texts(ls@);
    let n: usize = ls.len();
    let at: usize = if at < n {
        at
    } else {
        n
    };
    let lead = at > 0 && !lex::is_blank(ls[at - 1].as_str());
    let trail = at < n && !lex::is_blank(ls[at].as_str());
    assert(at > 0 ==> all[at - 1] == ls@[at - 1]@);
    assert(at < n ==> all[at as int] == ls@[at as int]@);
    let mut tail = ls.split_off(at);
    assert(text::texts(ls@) =~= all.take(at as int));
    assert(text::texts(tail@) =~= all.skip(at as int));
    let ghost gap = seq![Seq::<char>::empty()];
    let ghost head = text::texts(ls@);
    if lead {
        ls.push(String::new());
        assert(text::texts(ls@) =~= head + gap);
    }
    let ghost led = text::texts(ls@);
    let mut copy = text::copies(block);
    ls.append(&mut copy);
    assert(text::texts(ls@) =~= led + text::texts(block@));
    let ghost held = text::texts(ls@);
    if trail {
        ls.push(String::new());
        assert(text::texts(ls@) =~= held + gap);
    }
    let ghost closed = text::texts(ls@);
    let ghost rest = text::texts(tail@);
    ls.append(&mut tail);
    assert(text::texts(ls@) =~= closed + rest);
    assert(text::texts(ls@) =~= splice_spec(all, at as int, text::texts(block@)));
}

/// Where the last transaction dated no later than a date ends.
pub open spec fn end_of_last(ts: Seq<Span>, date: Day) -> Option<int>
    decreases ts.len(),
{
    if ts.len() == 0 {
        None
    } else {
        match ts.last().date {
            Some(d) => if d.le(date) {
                Some(ts.last().end)
            } else {
                end_of_last(ts.drop_last(), date)
            },
            None => end_of_last(ts.drop_last(), date),
        }
    }
}

/// The line at which a transaction goes: the end of the file; or after the
/// last transaction dated no later, else before the first one.
pub open spec fn insertion_index_spec(
    count: int,
    ts: Seq<Span>,
    date: Day,
    insertion: Insertion,
) -> int {
    match insertion {
        Insertion::Append => count,
        Insertion::Chronological => match end_of_last(ts, date) {
            Some(at) => at,
            None => if ts.len() > 0 {
                ts[0].start
            } else {
                count
            },
        },
    }
}

/// The line index at which a transaction dated `date` goes.
fn insertion_index(count: usize, ts: &[TxnSpan], date: Date, insertion: Insertion) -> (r: usize)
    ensures
        r == insertion_index_spec(
            count as int,
            filemap::spans_view(ts@),
            date@,
            insertion,
        ),
{
    match insertion {
        Insertion::Append => count,
        Insertion::Chronological => {
            // After the last transaction with date <= the new one. If none,
            // before the first transaction; if there are no transactions at
            // all, the end of the file.
            let ghost all = filemap::spans_view(ts@);
            let mut i: usize = ts.len();
            assert(all.take(all.len() as int) =~= all);
            while i > 0
                invariant
                    i <= ts@.len(),
                    all == filemap::spans_view(ts@),
                    insertion == Insertion::Chronological,
                    end_of_last(all, date@) == end_of_last(all.take(i as int), date@),
                decreases i,
            {
                assert(all.take(i as int).last() == ts@[i - 1]@);
                assert(all.take(i as int).drop_last() =~= all.take(i - 1));
                i = i - 1;
                if let Some(d) = ts[i].date {
                    if d.at_most(&date) {
                        return ts[i].end;
                    }
                }
            }
            if ts.len() > 0 {
                assert(all[0] == ts@[0]@);
                ts[0].start
            } else {
                count
            }
        },
    }
}

// ---- placing ----

/// A transaction placed: where it goes, in the lines as they stand when it is
/// inserted, and the lines to put there.
#[verifier::ext_equal]
pub struct Place {
    pub at: int,
    pub raw: Seq<Seq<char>>,
    pub warning: Option<Seq<char>>,
}

/// How far the placing of transactions has come: the lines so far and the
/// original line of each, what is placed, and what is refused.
#[verifier::ext_equal]
pub struct Placement {
    pub lines: Seq<Seq<char>>,
    pub origins: Seq<Option<int>>,
    pub placed: Seq<Place>,
    pub refusals: Seq<Seq<char>>,
}

/// The first original line from an index on.
pub open spec fn next_original(origins: Seq<Option<int>>, at: int) -> Option<int>
    decreases origins.len() - at,
{
    if at < 0 || at >= origins.len() {
        None
    } else if origins[at] is Some {
        origins[at]
    } else {
        next_original(origins, at + 1)
    }
}

/// The note about a directive in effect where a transaction goes.
pub open spec fn scope_note(scope: Rewrites) -> Option<Seq<char>> {
    if scope.directives().len() == 0 {
        None
    } else {
        Some(
            "`"@ + scope.directives()[0].0
                + "` is in effect at the insertion point; account names are written as it requires"@,
        )
    }
}

/// The directives in effect with their lines.
pub open spec fn blamed(scope: Rewrites) -> Seq<Seq<char>> {
    scope.directives().map_values(
        |d: (Seq<char>, Origin)|
            "`"@ + d.0 + "` (line "@ + text::digits_spec(d.1.line as nat) + ")"@,
    )
}

/// Why an account cannot be written.
pub open spec fn refusal(name: Seq<char>, scope: Rewrites) -> Seq<char> {
    "cannot write `"@ + name + "` here: "@ + text::join_spec(blamed(scope), " and "@)
        + " rewrites every spelling of it"@
}

impl Placement {
    pub open spec fn start(ls: Seq<Seq<char>>) -> Placement {
        Placement {
            lines: ls,
            origins: Seq::new(ls.len(), |i: int| Some(i)),
            placed: Seq::empty(),
            refusals: Seq::empty(),
        }
    }

    /// Place one more transaction against the lines as they stand.
    pub open spec fn step(
        self,
        txn: NewTxn,
        insertion: Insertion,
        scopes: Scopes,
        this_year: i32,
    ) -> Placement {
        let now = fmt::lines_spec(fmt::unlines_spec(self.lines));
        let at = insertion_index_spec(
            now.len() as int,
            filemap::all_spans(now, this_year),
            txn.date,
            insertion,
        );
        let scope = scopes.at(next_original(self.origins, at));
        match txn.raw_lines(scope) {
            Ok(raw) => {
                let after = splice_spec(self.lines, at, raw);
                let cut = if at < self.origins.len() {
                    at
                } else {
                    self.origins.len() as int
                };
                Placement {
                    lines: after,
                    origins: self.origins.take(cut) + Seq::new(
                        (after.len() - self.lines.len()) as nat,
                        |i: int| None::<int>,
                    ) + self.origins.skip(cut),
                    placed: self.placed.push(Place { at, raw, warning: scope_note(scope) }),
                    refusals: self.refusals,
                }
            },
            Err(names) => Placement {
                refusals: scope::with_new(
                    self.refusals,
                    names.map_values(|n: Seq<char>| refusal(n, scope)),
                ),
                ..self
            },
        }
    }

    pub open spec fn over(
        ls: Seq<Seq<char>>,
        txns: Seq<NewTxn>,
        insertion: Insertion,
        scopes: Scopes,
        this_year: i32,
    ) -> Placement
        decreases txns.len(),
    {
        if txns.len() == 0 {
            Placement::start(ls)
        } else {
            Placement::over(ls, txns.drop_last(), insertion, scopes, this_year).step(
                txns.last(),
                insertion,
                scopes,
                this_year,
            )
        }
    }
}

/// One transaction placed: where it goes and the lines to put there, already
/// spelled for the scope in effect at that point.
#[derive(Debug)]
struct Placed {
    /// Insertion index in the buffer *as it stands when this transaction is
    /// spliced* — positions are recorded in the order they are applied, not
    /// in original-file coordinates.
    at: usize,
    raw: Vec<String>,
    warning: Option<String>,
}

impl View for Placed {
    type V = Place;

    closed spec fn view(&self) -> Place {
        Place {
            at: self.at as int,
            raw: text::texts(self.raw@),
            warning: text::opt_text(self.warning),
        }
    }
}

spec fn places(v: Seq<Placed>) -> Seq<Place> {
    v.map_values(|p: Placed| p@)
}

spec fn origins_view(v: Seq<Option<usize>>) -> Seq<Option<int>> {
    v.map_values(
        |o: Option<usize>|
            match o {
                Some(n) => Some(n as int),
                None => None,
            },
    )
}

/// The first original line from an index on.
fn first_original(origins: &[Option<usize>], at: usize) -> (r: Option<usize>)
    ensures
        (match r {
            Some(n) => Some(n as int),
            None => None,
        }) == next_original(origins_view(origins@), at as int),
{
    let ghost all = origins_view(origins@);
    let mut i: usize = at;
    while i < origins.len()
        invariant
            all == origins_view(origins@),
            next_original(all, at as int) == next_original(all, i as int),
        decreases origins@.len() - i,
    {
        assert(all[i as int] == (match origins@[i as int] {
            Some(n) => Some(n as int),
            None => None,
        }));
        if origins[i].is_some() {
            return origins[i];
        }
        i = i + 1;
    }
    None
}

/// The directives in effect with their lines.
fn blame(scope: &Scope) -> (r: String)
    ensures
        r@ == text::join_spec(blamed(scope@), " and "@),
{
    let ds = scope.active_directives();
    let ghost all = scope@.directives();
    let ghost f = |d: (String, Origin)| (d.0@, d.1);
    assert(ds@.map_values(f) == all);
    let mut out: Vec<String> = Vec::new();
    let mut i: usize = 0;
    while i < ds.len()
        invariant
            i <= ds@.len(),
            all == scope@.directives(),
            f == (|d: (String, Origin)| (d.0@, d.1)),
            ds@.map_values(f) == all,
            text::texts(out@) =~= blamed(scope@).take(i as int),
        decreases ds@.len() - i,
    {
        assert(ds@.map_values(f)[i as int] == (ds@[i as int].0@, ds@[i as int].1));
        let ghost before = text::texts(out@);
        let mut line = text::cat3("`", ds[i].0.as_str(), "` (line ");
        line.append(text::digits(ds[i].1.line).as_str());
        line.append(")");
        assert(line@ == blamed(scope@)[i as int]);
        out.push(line);
        assert(text::texts(out@) =~= before.push(blamed(scope@)[i as int]));
        i = i + 1;
    }
    assert(blamed(scope@).take(all.len() as int) =~= blamed(scope@));
    assert(all.len() == ds@.len());
    let parts = text::refs(out.as_slice());
    text::join(parts.as_slice(), " and ")
}

/// The note about a directive in effect where a transaction goes.
fn note(scope: &Scope) -> (r: Option<String>)
    ensures
        text::opt_text(r) == scope_note(scope@),
{
    let ds = scope.active_directives();
    let ghost f = |d: (String, Origin)| (d.0@, d.1);
    assert(ds@.map_values(f) == scope@.directives());
    assert(ds@.map_values(f).len() == ds@.len());
    if ds.len() == 0 {
        None
    } else {
        assert(ds@.map_values(f)[0] == (ds@[0].0@, ds@[0].1));
        Some(
            text::cat3(
                "`",
                ds[0].0.as_str(),
                "` is in effect at the insertion point; account names are written as it requires",
            ),
        )
    }
}

/// Append the reasons why accounts cannot be written, each once.
fn refuse(refusals: &mut Vec<String>, names: &[String], scope: &Scope)
    ensures
        text::texts(final(refusals)@) == scope::with_new(
            text::texts(old(refusals)@),
            text::texts(names@).map_values(|n: Seq<char>| refusal(n, scope@)),
        ),
{
    let why = blame(scope);
    let ghost start = text::texts(refusals@);
    let ghost all = text::texts(names@).map_values(|n: Seq<char>| refusal(n, scope@));
    let mut i: usize = 0;
    while i < names.len()
        invariant
            i <= names@.len(),
            why@ == text::join_spec(blamed(scope@), " and "@),
            all == text::texts(names@).map_values(|n: Seq<char>| refusal(n, scope@)),
            text::texts(refusals@) == scope::with_new(start, all.take(i as int)),
        decreases names@.len() - i,
    {
        let mut reason = text::cat3("cannot write `", names[i].as_str(), "` here: ");
        reason.append(why.as_str());
        reason.append(" rewrites every spelling of it");
        let ghost before = text::texts(refusals@);
        let ghost rv = reason@;
        assert(text::texts(names@)[i as int] == names@[i as int]@);
        assert(all[i as int] == rv);
        assert(all.take(i + 1).drop_last() =~= all.take(i as int));
        assert(all.take(i + 1).last() == rv);
        if !text::has_text(refusals.as_slice(), reason.as_str()) {
            refusals.push(reason);
            assert(text::texts(refusals@) =~= before.push(rv));
        }
        i = i + 1;
    }
    assert(all.take(all.len() as int) =~= all);
}

/// Mirror a splice in the origins: everything inserted is new.
fn shift_origins(origins: &mut Vec<Option<usize>>, at: usize, added: usize)
    ensures
        ({
            let was = origins_view(old(origins)@);
            let cut = if at < was.len() {
                at as int
            } else {
                was.len() as int
            };
            origins_view(final(origins)@) == was.take(cut) + Seq::new(
                added as nat,
                |i: int| None::<int>,
            ) + was.skip(cut)
        }),
{
    let ghost was = origins_view(origins@);
    let n: usize = origins.len();
    let cut: usize = if at < n {
        at
    } else {
        n
    };
    let mut tail = origins.split_off(cut);
    let ghost rest = origins_view(tail@);
    assert(rest =~= was.skip(cut as int));
    let ghost head = origins_view(origins@);
    assert(head =~= was.take(cut as int));
    let mut i: usize = 0;
    while i < added
        invariant
            i <= added,
            origins_view(origins@) =~= head + Seq::new(i as nat, |i: int| None::<int>),
        decreases added - i,
    {
        let ghost before = origins_view(origins@);
        origins.push(None);
        assert(origins_view(origins@) =~= before.push(None));
        i = i + 1;
    }
    let ghost grown = origins_view(origins@);
    origins.append(&mut tail);
    assert(origins_view(origins@) =~= grown + rest);
}

proof fn lemma_splice_grows(ls: Seq<Seq<char>>, at: int, block: Seq<Seq<char>>)
    requires
        0 <= at,
    ensures
        splice_spec(ls, at, block).len() >= ls.len(),
{
}

/// Decide where each transaction goes and how its accounts are spelled there.
///
/// The placement walk is incremental — each transaction is positioned against
/// the file as the previous ones left it, which is what makes chronological
/// insertion of out-of-order transactions come out in date order. Alongside
/// it runs a map from buffer line to *original* line, because the scope is
/// only known for the original file; inserted transactions carry no
/// directives, so they never change it.
fn place(
    ls: &[String],
    txns: &[NewTransaction],
    insertion: Insertion,
    scopes: &TargetScopes,
    this_year: i32,
) -> (r: Result<Vec<Placed>, Vec<String>>)
    ensures
        ({
            let p = Placement::over(
                text::texts(ls@),
                crate::add::write::new_txns(txns@),
                insertion,
                scopes@,
                this_year,
            );
            match r {
                Ok(placed) => p.refusals.len() == 0 && places(placed@) == p.placed,
                Err(why) => p.refusals.len() > 0 && text::texts(why@) == p.refusals,
            }
        }),
{
    let ghost original = text::texts(ls@);
    let ghost all = crate::add::write::new_txns(txns@);
    let mut out: Vec<Placed> = Vec::new();
    let mut refusals: Vec<String> = Vec::new();
    let mut lines = text::copies(ls);
    let mut origins: Vec<Option<usize>> = Vec::new();
    let mut k: usize = 0;
    while k < ls.len()
        invariant
            k <= ls@.len(),
            origins_view(origins@) =~= Seq::new(k as nat, |i: int| Some(i)),
        decreases ls@.len() - k,
    {
        let ghost before = origins_view(origins@);
        origins.push(Some(k));
        assert(origins_view(origins@) =~= before.push(Some(k as int)));
        k = k + 1;
    }
    let ghost mut p = Placement::start(original);
    assert(places(out@) =~= p.placed);
    assert(text::texts(refusals@) =~= p.refusals);
    assert(all.take(0) =~= Seq::empty());
    let mut i: usize = 0;
    while i < txns.len()
        invariant
            i <= txns@.len(),
            all == crate::add::write::new_txns(txns@),
            p == Placement::over(original, all.take(i as int), insertion, scopes@, this_year),
            text::texts(lines@) == p.lines,
            origins_view(origins@) == p.origins,
            places(out@) == p.placed,
            text::texts(refusals@) == p.refusals,
        decreases txns@.len() - i,
    {
        let txn = &txns[i];
        assert(all.take(i + 1).drop_last() =~= all.take(i as int));
        assert(all.take(i + 1).last() == txn@);
        let ghost was = p;
        proof {
            p = p.step(txn@, insertion, scopes@, this_year);
        }
        let joined = fmt::unlines(text::refs(lines.as_slice()).as_slice());
        let now = fmt::lines(joined.as_str());
        let spans = filemap::txn_spans(now.as_slice(), this_year);
        assert(text::strs(now@).len() == now@.len());
        let at: usize = insertion_index(now.len(), spans.as_slice(), txn.date, insertion);
        // The scope just before the next surviving original line; past the
        // last of them, that is end of file.
        let scope = scopes.at(first_original(origins.as_slice(), at));
        match txn.raw_lines_in(scope) {
            Ok(raw) => {
                let before: usize = lines.len();
                splice(&mut lines, at, raw.as_slice());
                proof {
                    lemma_splice_grows(was.lines, at as int, text::texts(raw@));
                    assert(text::texts(lines@).len() == lines@.len());
                    assert(was.lines.len() == before);
                }
                shift_origins(&mut origins, at, lines.len() - before);
                let placed = Placed { at, raw, warning: note(scope) };
                let ghost pv = placed@;
                out.push(placed);
                assert(places(out@) =~= was.placed.push(pv));
            },
            Err(names) => {
                refuse(&mut refusals, names.as_slice(), scope);
            },
        }
        i = i + 1;
    }
    assert(all.take(all.len() as int) =~= all);
    assert(text::texts(refusals@).len() == refusals@.len());
    if refusals.len() == 0 {
        Ok(out)
    } else {
        Err(refusals)
    }
}

// ---- integrating ----

/// What an [`Integration`] says.
#[verifier::ext_equal]
pub enum Outcome {
    Ready { contents: Seq<char>, warnings: Seq<Seq<char>> },
    Refused(Seq<Seq<char>>),
}

/// The outcome of integrating new transactions into a file.
#[derive(Debug, Clone)]
pub struct Integrated {
    /// The file's new contents.
    pub contents: String,
    /// Non-fatal notes for the user.
    pub warnings: Vec<String>,
}

/// Whether the new transactions could be expressed at their insertion point.
#[derive(Debug, Clone)]
pub enum Integration {
    /// Ready to write.
    Ready(Integrated),
    /// At least one account cannot be written where it would go — an
    /// `apply account` or `alias` in effect there rewrites every spelling of
    /// it into something else. Refusing is the only correct answer: writing
    /// the name as-is would silently enter a different account.
    Refused(Vec<String>),
}

impl View for Integration {
    type V = Outcome;

    open spec fn view(&self) -> Outcome {
        match self {
            Integration::Ready(out) => Outcome::Ready {
                contents: out.contents@,
                warnings: text::texts(out.warnings@),
            },
            Integration::Refused(reasons) => Outcome::Refused(text::texts(reasons@)),
        }
    }
}

/// The notes of placed transactions.
pub open spec fn notes_spec(placed: Seq<Place>) -> Seq<Seq<char>>
    decreases placed.len(),
{
    if placed.len() == 0 {
        Seq::empty()
    } else {
        match placed.last().warning {
            Some(w) => notes_spec(placed.drop_last()).push(w),
            None => notes_spec(placed.drop_last()),
        }
    }
}

/// Lines with blocks inserted, one after another.
pub open spec fn spliced(ls: Seq<Seq<char>>, blocks: Seq<(int, Seq<Seq<char>>)>) -> Seq<Seq<char>>
    decreases blocks.len(),
{
    if blocks.len() == 0 {
        ls
    } else {
        splice_spec(spliced(ls, blocks.drop_last()), blocks.last().0, blocks.last().1)
    }
}

/// Placed transactions as they are spelled.
pub open spec fn raw_blocks(placed: Seq<Place>) -> Seq<(int, Seq<Seq<char>>)> {
    placed.map_values(|p: Place| (p.at, p.raw))
}

/// A transaction's lines, its postings aligned.
pub open spec fn aligned(
    raw: Seq<Seq<char>>,
    acc_w: nat,
    num_w: nat,
    ctx: Ctx,
) -> Seq<Seq<char>> {
    raw.take(1) + raw.skip(1).map_values(
        |l: Seq<char>|
            posting::render_spec(
                acc_w,
                num_w,
                posting::restyle_post_spec(
                    posting::parse_posting_spec(l),
                    ctx,
                    Places::AsWritten,
                ),
            ),
    )
}

/// Placed transactions with their postings aligned.
pub open spec fn aligned_blocks(
    placed: Seq<Place>,
    acc_w: nat,
    num_w: nat,
    ctx: Ctx,
) -> Seq<(int, Seq<Seq<char>>)> {
    placed.map_values(|p: Place| (p.at, aligned(p.raw, acc_w, num_w, ctx)))
}

/// Widths that also hold new transactions.
pub open spec fn widened(w: (nat, nat), txns: Seq<NewTxn>) -> (nat, nat)
    decreases txns.len(),
{
    if txns.len() == 0 {
        w
    } else {
        let before = widened(w, txns.drop_last());
        (
            fmt::longer(before.0, NewTxn::own_account_width(txns.last().postings)),
            fmt::longer(before.1, NewTxn::own_number_width(txns.last().postings)),
        )
    }
}

/// The notes on a file before anything is placed.
pub open spec fn file_notes(src: Seq<char>, map: Mapped, opts: WriteOptions) -> Seq<Seq<char>> {
    (if opts.format_file && !map.formatted && src.len() > 0 {
        seq!["file was not formatted; it will be reformatted on write"@]
    } else {
        Seq::empty()
    }) + (if opts.insertion == Insertion::Chronological && !opts.sort && !filemap::ascending(
        filemap::dates_spec(map.transactions),
    ) {
        seq!["file is not sorted by date; inserting chronologically anyway"@]
    } else {
        Seq::empty()
    })
}

/// The note that new lines are wider than those of a formatted file.
pub open spec fn stale_note(map: Mapped, w: (nat, nat)) -> Seq<Seq<char>> {
    if map.formatted && (w.0 > map.acc_w || w.1 > map.num_w) {
        seq![
            "new transaction widens the alignment columns; existing lines are now stale and a later `fmt` run will reflow them"@,
        ]
    } else {
        Seq::empty()
    }
}

/// A file with new transactions in it, and what to tell the user; or why they
/// cannot be written.
pub open spec fn integrate_spec(
    src: Seq<char>,
    txns: Seq<NewTxn>,
    opts: WriteOptions,
    inherited: Seq<(usize, Ctx)>,
    scopes: Scopes,
    this_year: i32,
) -> Outcome {
    let map = filemap::map_spec(src, inherited, this_year);
    let p = Placement::over(map.lines, txns, opts.insertion, scopes, this_year);
    if p.refusals.len() > 0 {
        Outcome::Refused(p.refusals)
    } else {
        let warnings = scope::with_new(file_notes(src, map, opts), notes_spec(p.placed));
        let joined = fmt::unlines_spec(spliced(map.lines, raw_blocks(p.placed)));
        let all = fmt::lines_spec(joined);
        if opts.format_file {
            Outcome::Ready {
                contents: tree::format_at_spec(
                    joined,
                    inherited,
                    Options { sort: opts.sort, explicit: false },
                ),
                warnings,
            }
        } else {
            let w = widened(tree::widths_at_spec(all, inherited), txns);
            Outcome::Ready {
                contents: fmt::unlines_spec(
                    spliced(
                        map.lines,
                        aligned_blocks(p.placed, w.0, w.1, tree::merged_spec(inherited)),
                    ),
                ),
                warnings: warnings + stale_note(map, w),
            }
        }
    }
}

/// Append the notes of placed transactions that a list lacks.
fn collect_notes(warnings: &mut Vec<String>, placed: &[Placed])
    ensures
        text::texts(final(warnings)@) == scope::with_new(
            text::texts(old(warnings)@),
            notes_spec(places(placed@)),
        ),
{
    let ghost start = text::texts(warnings@);
    let ghost all = places(placed@);
    let mut i: usize = 0;
    assert(all.take(0) =~= Seq::empty());
    while i < placed.len()
        invariant
            i <= placed@.len(),
            all == places(placed@),
            text::texts(warnings@) == scope::with_new(start, notes_spec(all.take(i as int))),
        decreases placed@.len() - i,
    {
        assert(all.take(i + 1).drop_last() =~= all.take(i as int));
        assert(all.take(i + 1).last() == placed@[i as int]@);
        if let Some(w) = &placed[i].warning {
            let ghost before = text::texts(warnings@);
            let ghost notes = notes_spec(all.take(i as int));
            assert(notes.push(w@).drop_last() =~= notes);
            if !text::has_text(warnings.as_slice(), w.as_str()) {
                warnings.push(w.as_str().to_owned());
                assert(text::texts(warnings@) =~= before.push(w@));
            }
        }
        i = i + 1;
    }
    assert(all.take(all.len() as int) =~= all);
}

/// A transaction's lines, its postings aligned.
fn align(raw: &[String], acc_w: usize, num_w: usize, ctx: &AmountCtx) -> (r: Vec<String>)
    requires
        raw@.len() > 0,
    ensures
        text::texts(r@) == aligned(text::texts(raw@), acc_w as nat, num_w as nat, ctx@),
{
    let ghost want = aligned(text::texts(raw@), acc_w as nat, num_w as nat, ctx@);
    let mut out: Vec<String> = Vec::new();
    out.push(raw[0].as_str().to_owned());
    assert(text::texts(out@) =~= want.take(1));
    let mut i: usize = 1;
    while i < raw.len()
        invariant
            1 <= i <= raw@.len(),
            want == aligned(text::texts(raw@), acc_w as nat, num_w as nat, ctx@),
            text::texts(out@) == want.take(i as int),
        decreases raw@.len() - i,
    {
        let ghost before = text::texts(out@);
        let line = posting::render(
            acc_w,
            num_w,
            &posting::restyle(posting::parse_posting(raw[i].as_str()), ctx),
        );
        assert(text::texts(raw@).skip(1)[i - 1] == raw@[i as int]@);
        assert(line@ == want[i as int]);
        out.push(line);
        assert(text::texts(out@) =~= before.push(want[i as int]));
        assert(want.take(i + 1) =~= want.take(i as int).push(want[i as int]));
        i = i + 1;
    }
    assert(want.take(want.len() as int) =~= want);
    out
}

/// Insert placed transactions as they are spelled.
fn splice_raw(ls: &[String], placed: &[Placed]) -> (r: Vec<String>)
    ensures
        text::texts(r@) == spliced(text::texts(ls@), raw_blocks(places(placed@))),
{
    let mut lines = text::copies(ls);
    let ghost blocks = raw_blocks(places(placed@));
    let mut i: usize = 0;
    assert(blocks.take(0) =~= Seq::empty());
    while i < placed.len()
        invariant
            i <= placed@.len(),
            blocks == raw_blocks(places(placed@)),
            text::texts(lines@) == spliced(text::texts(ls@), blocks.take(i as int)),
        decreases placed@.len() - i,
    {
        assert(blocks.take(i + 1).drop_last() =~= blocks.take(i as int));
        assert(blocks.take(i + 1).last() == (placed@[i as int]@.at, placed@[i as int]@.raw));
        splice(&mut lines, placed[i].at, placed[i].raw.as_slice());
        i = i + 1;
    }
    assert(blocks.take(blocks.len() as int) =~= blocks);
    lines
}

/// Insert placed transactions with their postings aligned.
fn splice_aligned(
    ls: &[String],
    placed: &[Placed],
    acc_w: usize,
    num_w: usize,
    ctx: &AmountCtx,
) -> (r: Vec<String>)
    requires
        forall|m: int| 0 <= m < placed@.len() ==> (#[trigger] places(placed@)[m]).raw.len() > 0,
    ensures
        text::texts(r@) == spliced(
            text::texts(ls@),
            aligned_blocks(places(placed@), acc_w as nat, num_w as nat, ctx@),
        ),
{
    let mut lines = text::copies(ls);
    let ghost blocks = aligned_blocks(places(placed@), acc_w as nat, num_w as nat, ctx@);
    let mut i: usize = 0;
    assert(blocks.take(0) =~= Seq::empty());
    while i < placed.len()
        invariant
            i <= placed@.len(),
            forall|m: int|
                0 <= m < placed@.len() ==> (#[trigger] places(placed@)[m]).raw.len() > 0,
            blocks == aligned_blocks(places(placed@), acc_w as nat, num_w as nat, ctx@),
            text::texts(lines@) == spliced(text::texts(ls@), blocks.take(i as int)),
        decreases placed@.len() - i,
    {
        assert(blocks.take(i + 1).drop_last() =~= blocks.take(i as int));
        assert(places(placed@)[i as int].raw.len() == placed@[i as int].raw@.len());
        let rendered = align(placed[i].raw.as_slice(), acc_w, num_w, ctx);
        assert(blocks.take(i + 1).last() == (placed@[i as int]@.at, text::texts(rendered@)));
        splice(&mut lines, placed[i].at, rendered.as_slice());
        i = i + 1;
    }
    assert(blocks.take(blocks.len() as int) =~= blocks);
    lines
}

/// Widths that also hold new transactions.
fn widen(start: (usize, usize), txns: &[NewTransaction]) -> (r: (usize, usize))
    ensures
        (r.0 as nat, r.1 as nat) == widened(
            (start.0 as nat, start.1 as nat),
            crate::add::write::new_txns(txns@),
        ),
{
    let ghost tv = crate::add::write::new_txns(txns@);
    let (mut acc_w, mut num_w) = start;
    let mut j: usize = 0;
    assert(tv.take(0) =~= Seq::empty());
    while j < txns.len()
        invariant
            j <= txns@.len(),
            tv == crate::add::write::new_txns(txns@),
            (acc_w as nat, num_w as nat) == widened(
                (start.0 as nat, start.1 as nat),
                tv.take(j as int),
            ),
        decreases txns@.len() - j,
    {
        assert(tv.take(j + 1).drop_last() =~= tv.take(j as int));
        assert(tv.take(j + 1).last() == txns@[j as int]@);
        let (a, n) = txns[j].own_widths();
        if a > acc_w {
            acc_w = a;
        }
        if n > num_w {
            num_w = n;
        }
        j = j + 1;
    }
    assert(tv.take(tv.len() as int) =~= tv);
    (acc_w, num_w)
}

/// [`integrate`] with the styles the target file inherits — from the include
/// tree ahead of it, and from its own `include` lines — against the target
/// file's `apply account` / `alias` scopes, which decide how each account name
/// is spelled where it lands, in a given year.
#[must_use]
pub fn integrate_in_year(
    src: &str,
    txns: &[NewTransaction],
    opts: &WriteOptions,
    inherited: &[(usize, AmountCtx)],
    scopes: &TargetScopes,
    this_year: i32,
) -> (r: Integration)
    ensures
        r@ == integrate_spec(
            src@,
            crate::add::write::new_txns(txns@),
            *opts,
            tree::ctxs(inherited@),
            scopes@,
            this_year,
        ),
{
    let ghost tv = crate::add::write::new_txns(txns@);
    let mut warnings: Vec<String> = Vec::new();
    let map = FileMap::build_in_year(src, inherited, this_year);
    if opts.format_file && !map.formatted && !src.is_empty() {
        warnings.push("file was not formatted; it will be reformatted on write".to_owned());
    }
    if opts.insertion == Insertion::Chronological && !opts.sort && !map.is_date_sorted() {
        warnings.push("file is not sorted by date; inserting chronologically anyway".to_owned());
    }
    assert(text::texts(warnings@) =~= file_notes(src@, map@, *opts));

    // Place every transaction and spell its accounts for wherever it landed.
    // Nothing is written until all of them succeed.
    let ghost p = Placement::over(map@.lines, tv, opts.insertion, scopes@, this_year);
    let placed = match place(map.lines.as_slice(), txns, opts.insertion, scopes, this_year) {
        Ok(placed) => placed,
        Err(reasons) => {
            return Integration::Refused(reasons);
        },
    };
    collect_notes(&mut warnings, placed.as_slice());
    let ghost noted = text::texts(warnings@);
    let lines = splice_raw(map.lines.as_slice(), placed.as_slice());
    let joined = fmt::unlines(text::refs(lines.as_slice()).as_slice());
    if opts.format_file {
        let contents = tree::format_opts_at(
            joined.as_str(),
            inherited,
            Options { sort: opts.sort, explicit: false },
        );
        return Integration::Ready(Integrated { contents, warnings });
    }
    // Only our own lines are rendered, at widths computed over the whole file
    // including the new transactions.

    let all = fmt::lines(joined.as_str());
    let (acc_w, num_w) = widen(tree::widths_with_at(all.as_slice(), inherited), txns);
    if map.formatted && (acc_w > map.acc_w || num_w > map.num_w) {
        warnings.push(
            "new transaction widens the alignment columns; existing lines are now stale and a later `fmt` run will reflow them".to_owned(),
        );
    }
    assert(text::texts(warnings@) =~= noted + stale_note(map@, (acc_w as nat, num_w as nat)));

    // Re-do the insertion, this time rendering our lines aligned. The
    // recorded positions stay valid: the same splices happen in the same
    // order with blocks of the same length, so the indices repeat exactly.
    // Our lines go at the end of the file, so every inherited style is in
    // effect.
    let at_eof = tree::merged_styles(inherited);
    proof {
        lemma_placed_raw(map@.lines, tv, opts.insertion, scopes@, this_year);
    }
    let fine = splice_aligned(map.lines.as_slice(), placed.as_slice(), acc_w, num_w, &at_eof);
    Integration::Ready(
        Integrated {
            contents: fmt::unlines(text::refs(fine.as_slice()).as_slice()),
            warnings,
        },
    )
}

/// What is placed has a header line.
pub proof fn lemma_placed_raw(
    ls: Seq<Seq<char>>,
    txns: Seq<NewTxn>,
    insertion: Insertion,
    scopes: Scopes,
    this_year: i32,
)
    ensures
        forall|m: int|
            0 <= m < Placement::over(ls, txns, insertion, scopes, this_year).placed.len() ==> (
            #[trigger] Placement::over(
                ls,
                txns,
                insertion,
                scopes,
                this_year,
            ).placed[m]).raw.len() > 0,
    decreases txns.len(),
{
    if txns.len() > 0 {
        lemma_placed_raw(ls, txns.drop_last(), insertion, scopes, this_year);
    }
}

/// [`integrate_with`] against the target file's `apply account` / `alias`
/// scopes, which decide how each account name is spelled where it lands.
#[must_use]
pub fn integrate_in(
    src: &str,
    txns: &[NewTransaction],
    opts: &WriteOptions,
    inherited: &[(usize, AmountCtx)],
    scopes: &TargetScopes,
) -> (r: Integration)
    ensures
        exists|y: i32|
            r@ == #[trigger] integrate_spec(
                src@,
                crate::add::write::new_txns(txns@),
                *opts,
                tree::ctxs(inherited@),
                scopes@,
                y,
            ),
{
    let this_year: i32 = date::current_year();
    integrate_in_year(src, txns, opts, inherited, scopes, this_year)
}

/// [`integrate`] with the styles the target file inherits — from the include
/// tree ahead of it, and from its own `include` lines.
#[must_use]
pub fn integrate_with(
    src: &str,
    txns: &[NewTransaction],
    opts: &WriteOptions,
    inherited: &[(usize, AmountCtx)],
) -> (r: Integrated)
    ensures
        exists|y: i32|
            (Outcome::Ready { contents: r.contents@, warnings: text::texts(r.warnings@) })
                == #[trigger] integrate_spec(
                src@,
                crate::add::write::new_txns(txns@),
                *opts,
                tree::ctxs(inherited@),
                Scopes::none(),
                y,
            ),
{
    let this_year: i32 = date::current_year();
    proof {
        nothing_is_refused_where_nothing_rewrites(
            fmt::lines_spec(src@),
            crate::add::write::new_txns(txns@),
            opts.insertion,
            this_year,
        );
    }
    match integrate_in_year(src, txns, opts, inherited, &TargetScopes::default(), this_year) {
        Integration::Ready(out) => out,
        // Unreachable with an empty scope — it spells every name as itself —
        // but expressed as data rather than a panic.
        Integration::Refused(reasons) => Integrated {
            contents: src.to_owned(),
            warnings: reasons,
        },
    }
}

/// Integrate `txns` into a file's contents per the write options.
///
/// The default path formats the whole file; with `format_file = false` only
/// the added lines are written, rendered against widths computed over the
/// entire file *including* the new transactions.
#[must_use]
pub fn integrate(src: &str, txns: &[NewTransaction], opts: &WriteOptions) -> (r: Integrated)
    ensures
        exists|y: i32|
            (Outcome::Ready { contents: r.contents@, warnings: text::texts(r.warnings@) })
                == #[trigger] integrate_spec(
                src@,
                crate::add::write::new_txns(txns@),
                *opts,
                Seq::empty(),
                Scopes::none(),
                y,
            ),
{
    let none: Vec<(usize, AmountCtx)> = Vec::new();
    assert(tree::ctxs(none@) =~= Seq::empty());
    integrate_with(src, txns, opts, none.as_slice())
}

/// Where no directive rewrites account names, no transaction is refused.
pub proof fn nothing_is_refused_where_nothing_rewrites(
    ls: Seq<Seq<char>>,
    txns: Seq<NewTxn>,
    insertion: Insertion,
    this_year: i32,
)
    ensures
        Placement::over(ls, txns, insertion, Scopes::none(), this_year).refusals.len() == 0,
    decreases txns.len(),
{
    if txns.len() > 0 {
        nothing_is_refused_where_nothing_rewrites(ls, txns.drop_last(), insertion, this_year);
        crate::add::write::lemma_all_spellable(txns.last().postings);
    }
}

/// Whether lines stand among others, all of them and in order.
pub open spec fn stands_in(a: Seq<Seq<char>>, b: Seq<Seq<char>>) -> bool
    decreases b.len(),
{
    if a.len() == 0 {
        true
    } else if b.len() == 0 {
        false
    } else {
        ||| a.last() == b.last() && stands_in(a.drop_last(), b.drop_last())
        ||| stands_in(a, b.drop_last())
    }
}

proof fn lemma_stands_itself(a: Seq<Seq<char>>)
    ensures
        stands_in(a, a),
    decreases a.len(),
{
    if a.len() > 0 {
        lemma_stands_itself(a.drop_last());
    }
}

/// Lines put in between take none out.
proof fn lemma_stands_inserted(
    a: Seq<Seq<char>>,
    p: Seq<Seq<char>>,
    new: Seq<Seq<char>>,
    q: Seq<Seq<char>>,
)
    requires
        stands_in(a, p + q),
    ensures
        stands_in(a, p + new + q),
    decreases q.len(), new.len(),
{
    let all = p + new + q;
    if q.len() > 0 {
        let f = q.drop_last();
        assert((p + q).drop_last() =~= p + f);
        assert((p + q).last() == q.last());
        assert(all.drop_last() =~= p + new + f);
        assert(all.last() == q.last());
        if a.len() > 0 {
            if stands_in(a, p + f) {
                lemma_stands_inserted(a, p, new, f);
            } else {
                lemma_stands_inserted(a.drop_last(), p, new, f);
            }
        }
    } else {
        assert(p + q =~= p);
        if new.len() > 0 {
            let f = new.drop_last();
            lemma_stands_inserted(a, p, f, q);
            assert(p + f + q =~= p + f);
            assert(all.drop_last() =~= p + f);
        } else {
            assert(all =~= p);
        }
    }
}

proof fn lemma_stands_spliced(ls: Seq<Seq<char>>, blocks: Seq<(int, Seq<Seq<char>>)>)
    requires
        forall|i: int| 0 <= i < blocks.len() ==> 0 <= (#[trigger] blocks[i]).0,
    ensures
        stands_in(ls, spliced(ls, blocks)),
    decreases blocks.len(),
{
    if blocks.len() == 0 {
        lemma_stands_itself(ls);
    } else {
        let f = blocks.drop_last();
        assert forall|i: int| 0 <= i < f.len() implies 0 <= (#[trigger] f[i]).0 by {
            assert(f[i] == blocks[i]);
        }
        lemma_stands_spliced(ls, f);
        let x = spliced(ls, f);
        assert(0 <= blocks[blocks.len() - 1].0);
        let at = if blocks.last().0 < x.len() {
            blocks.last().0
        } else {
            x.len() as int
        };
        let out = spliced(ls, blocks);
        let gap = seq![Seq::<char>::empty()];
        let lead = if at > 0 && !lex::is_blank_spec(x[at - 1]) {
            gap
        } else {
            Seq::empty()
        };
        let trail = if at < x.len() && !lex::is_blank_spec(x[at]) {
            gap
        } else {
            Seq::empty()
        };
        let new = lead + blocks.last().1 + trail;
        assert(x =~= x.take(at) + x.skip(at));
        lemma_stands_inserted(ls, x.take(at), new, x.skip(at));
        assert(out =~= x.take(at) + new + x.skip(at));
    }
}

/// A transaction is placed at a line of the file.
pub proof fn lemma_placed_at(
    ls: Seq<Seq<char>>,
    txns: Seq<NewTxn>,
    insertion: Insertion,
    scopes: Scopes,
    this_year: i32,
)
    ensures
        ({
            let placed = Placement::over(ls, txns, insertion, scopes, this_year).placed;
            forall|i: int| 0 <= i < placed.len() ==> 0 <= (#[trigger] placed[i]).at
        }),
    decreases txns.len(),
{
    if txns.len() > 0 {
        lemma_placed_at(ls, txns.drop_last(), insertion, scopes, this_year);
        let before = Placement::over(ls, txns.drop_last(), insertion, scopes, this_year);
        let now = fmt::lines_spec(fmt::unlines_spec(before.lines));
        let ts = filemap::all_spans(now, this_year);
        filemap::transactions_stand_in_order(now, this_year);
        lemma_end_of_last(ts, txns.last().date);
    }
}

proof fn lemma_end_of_last(ts: Seq<Span>, date: Day)
    requires
        forall|k: int| 0 <= k < ts.len() ==> 0 <= (#[trigger] ts[k]).start < ts[k].end,
    ensures
        end_of_last(ts, date) matches Some(at) ==> 0 <= at,
    decreases ts.len(),
{
    if ts.len() > 0 {
        assert(0 <= ts[ts.len() - 1].start < ts[ts.len() - 1].end);
        let f = ts.drop_last();
        assert forall|k: int| 0 <= k < f.len() implies 0 <= (#[trigger] f[k]).start
            < f[k].end by {
            assert(f[k] == ts[k]);
        }
        lemma_end_of_last(f, date);
    }
}

/// Without formatting, every line of the file stays as it is and in its order:
/// new lines are put between them, and nothing else is done.
pub proof fn without_formatting_every_line_stays(
    src: Seq<char>,
    txns: Seq<NewTxn>,
    opts: WriteOptions,
    inherited: Seq<(usize, Ctx)>,
    scopes: Scopes,
    this_year: i32,
)
    requires
        !opts.format_file,
    ensures
        integrate_spec(src, txns, opts, inherited, scopes, this_year) matches Outcome::Ready {
            contents,
            warnings,
        } ==> exists|out: Seq<Seq<char>>|
            contents == fmt::unlines_spec(out) && #[trigger] stands_in(fmt::lines_spec(src), out),
{
    let map = filemap::map_spec(src, inherited, this_year);
    let p = Placement::over(map.lines, txns, opts.insertion, scopes, this_year);
    if p.refusals.len() == 0 {
        let joined = fmt::unlines_spec(spliced(map.lines, raw_blocks(p.placed)));
        let all = fmt::lines_spec(joined);
        let w = widened(tree::widths_at_spec(all, inherited), txns);
        let blocks = aligned_blocks(p.placed, w.0, w.1, tree::merged_spec(inherited));
        lemma_placed_at(map.lines, txns, opts.insertion, scopes, this_year);
        assert forall|i: int| 0 <= i < blocks.len() implies 0 <= (#[trigger] blocks[i]).0 by {
            assert(0 <= p.placed[i].at);
        }
        lemma_stands_spliced(map.lines, blocks);
        assert(stands_in(fmt::lines_spec(src), spliced(map.lines, blocks)));
    }
}

} // verus!
