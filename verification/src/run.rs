//! What the programs decide: which files a run covers, what each of them
//! becomes, and what is said at the end.
//!
//! Reading and writing is left to the programs themselves. They hand over
//! what they found and carry out what comes back.

use vstd::prelude::*;
use vstd::string::*;
use crate::add::parser::{Book, Journal};
use crate::amount::{AmountCtx, Ctx};
use crate::fmt::{self, Options};
use crate::status::Status;
use crate::text;
use crate::fmt::tree;

verus! {

// ---- what a run was asked for ----

/// The `--sort` / `--no-sort` pair, which overrides the configured canonical
/// form in either direction.
#[derive(Debug, Clone, Copy, PartialEq, Eq, Structural)]
pub struct SortFlags {
    /// Also sort transactions by date, overriding the config's `sort`.
    pub sort: bool,
    /// Leave transaction order alone, overriding the config's `sort`.
    pub no_sort: bool,
}

impl SortFlags {
    /// Whether to sort, given what the config asked for. The last of the two
    /// flags wins on the command line, so at most one of them is set here.
    #[must_use]
    pub fn resolve(&self, configured: bool) -> (r: bool)
        ensures
            r == (self.sort || (!self.no_sort && configured)),
    {
        if self.sort {
            true
        } else if self.no_sort {
            false
        } else {
            configured
        }
    }
}

/// How the outcome of a formatting run is to be shown.
#[derive(Debug, Clone, Copy, PartialEq, Eq, Structural)]
pub struct Mode {
    /// Write nothing; fail if any file is not already formatted.
    pub check: bool,
    /// Print a unified diff of every change instead of naming the files.
    pub diff: bool,
    /// Do not list the files that changed.
    pub quiet: bool,
}

impl Mode {
    /// A mode in which asking for the diff is asking for a dry run.
    ///
    /// Showing the change and making it are different requests, and every
    /// formatter the user is likely to reach for next treats the diff as a
    /// dry run.
    #[must_use]
    pub fn preview(check: bool, diff: bool, quiet: bool) -> (r: Self)
        ensures
            r == (Mode { check: check || diff, diff, quiet }),
    {
        Mode { check: check || diff, diff, quiet }
    }
}

/// The journal a run falls back to: the flag, then the config's
/// `ledger_file`, then the environment.
pub open spec fn journal_spec(
    flag: Option<Seq<char>>,
    configured: Option<Seq<char>>,
    environment: Option<Seq<char>>,
) -> Option<Seq<char>> {
    if flag is Some {
        flag
    } else if configured is Some {
        configured
    } else {
        environment
    }
}

/// The journal a run works on: the flag, then the config's `ledger_file`,
/// then the environment.
#[must_use]
pub fn journal_file(
    flag: Option<String>,
    configured: Option<String>,
    environment: Option<String>,
) -> (r: Option<String>)
    ensures
        text::opt_text(r) == journal_spec(
            text::opt_text(flag),
            text::opt_text(configured),
            text::opt_text(environment),
        ),
{
    match flag {
        Some(f) => Some(f),
        None => match configured {
            Some(c) => Some(c),
            None => environment,
        },
    }
}

/// What the operands of a formatting run select.
#[derive(Debug)]
pub enum Target {
    /// Standard input, once.
    Stdin,
    /// This journal and everything it includes.
    Journal(String),
    /// The roots and files that were named.
    Operands,
    /// `-` among other operands.
    Mixed,
    /// Nothing was named and nothing is configured.
    Nothing,
}

/// What the operands of a formatting run select.
#[verifier::ext_equal]
pub enum Selected {
    Stdin,
    Journal(Seq<char>),
    Operands,
    Mixed,
    Nothing,
}

impl View for Target {
    type V = Selected;

    open spec fn view(&self) -> Selected {
        match self {
            Target::Stdin => Selected::Stdin,
            Target::Journal(s) => Selected::Journal(s@),
            Target::Operands => Selected::Operands,
            Target::Mixed => Selected::Mixed,
            Target::Nothing => Selected::Nothing,
        }
    }
}

/// What the operands select. `-` stands alone, and an invocation that names
/// nothing means the journal that is configured.
pub open spec fn selected_spec(
    files: Seq<Seq<char>>,
    roots: nat,
    configured: Option<Seq<char>>,
    environment: Option<Seq<char>>,
) -> Selected {
    if files.contains("-"@) {
        if roots == 0 && forall|i: int| 0 <= i < files.len() ==> #[trigger] files[i] == "-"@ {
            Selected::Stdin
        } else {
            Selected::Mixed
        }
    } else if files.len() > 0 || roots > 0 {
        Selected::Operands
    } else {
        match journal_spec(None, configured, environment) {
            Some(root) => Selected::Journal(root),
            None => Selected::Nothing,
        }
    }
}

/// Resolve the operands into a target.
#[must_use]
pub fn select(
    files: &[String],
    follow: &[String],
    configured: Option<String>,
    environment: Option<String>,
) -> (r: Target)
    ensures
        r@ == selected_spec(
            text::texts(files@),
            follow@.len(),
            text::opt_text(configured),
            text::opt_text(environment),
        ),
{
    let ghost all = text::texts(files@);
    let mut some = false;
    let mut every = true;
    let mut i: usize = 0;
    while i < files.len()
        invariant
            i <= files@.len(),
            all == text::texts(files@),
            some <==> exists|j: int| 0 <= j < i && #[trigger] all[j] == "-"@,
            every <==> forall|j: int| 0 <= j < i ==> #[trigger] all[j] == "-"@,
        decreases files@.len() - i,
    {
        assert(all[i as int] == files@[i as int]@);
        if text::same(files[i].as_str(), "-") {
            some = true;
        } else {
            every = false;
        }
        i = i + 1;
    }
    if some {
        let ghost j = choose|j: int| 0 <= j < all.len() && #[trigger] all[j] == "-"@;
        assert(all.contains(all[j]));
        if every && follow.len() == 0 {
            Target::Stdin
        } else {
            Target::Mixed
        }
    } else if files.len() > 0 || follow.len() > 0 {
        Target::Operands
    } else {
        match journal_file(None, configured, environment) {
            Some(root) => Target::Journal(root),
            None => Target::Nothing,
        }
    }
}

// ---- the files a run covers ----

/// One file to format, and where its declared styles come from.
#[derive(Debug)]
pub struct Job {
    pub path: String,
    /// How the file is named in output: as the user wrote it for an operand,
    /// relative to the working directory for one found through an include.
    pub display: String,
    /// Index into [`Plan::ctxs`].
    pub ctx: usize,
}

/// A file to format.
#[verifier::ext_equal]
pub struct Task {
    pub path: Seq<char>,
    pub display: Seq<char>,
    pub ctx: nat,
}

impl View for Job {
    type V = Task;

    open spec fn view(&self) -> Task {
        Task { path: self.path@, display: self.display@, ctx: self.ctx as nat }
    }
}

/// The files a formatting run selects, in the order they were selected.
pub struct Plan {
    /// The styles each selected file inherits, none where only its own
    /// directives count.
    pub ctxs: Vec<Option<Vec<(usize, AmountCtx)>>>,
    pub jobs: Vec<Job>,
    /// Canonical paths already in `jobs`: a file reachable from two roots, or
    /// named as an operand as well, is formatted once.
    pub seen: Vec<String>,
    /// Roots that could not be walked. Reported, then the run continues.
    pub status: Status,
}

/// What a plan holds.
#[verifier::ext_equal]
pub struct Agenda {
    pub ctxs: Seq<Option<Seq<(usize, Ctx)>>>,
    pub jobs: Seq<Task>,
    pub seen: Seq<Seq<char>>,
    pub status: Status,
}

/// What a file inherits.
pub open spec fn inherited(o: Option<Vec<(usize, AmountCtx)>>) -> Option<Seq<(usize, Ctx)>> {
    match o {
        Some(v) => Some(tree::ctxs(v@)),
        None => None,
    }
}

impl View for Plan {
    type V = Agenda;

    open spec fn view(&self) -> Agenda {
        Agenda {
            ctxs: self.ctxs@.map_values(|o: Option<Vec<(usize, AmountCtx)>>| inherited(o)),
            jobs: self.jobs@.map_values(|j: Job| j@),
            seen: text::texts(self.seen@),
            status: self.status,
        }
    }
}

impl Agenda {
    pub open spec fn empty() -> Agenda {
        Agenda { ctxs: seq![], jobs: seq![], seen: seq![], status: Status::Success }
    }

    /// Every job has its styles, and no file has two jobs.
    pub open spec fn wf(self) -> bool {
        &&& self.jobs.len() == self.seen.len()
        &&& self.seen.no_duplicates()
        &&& forall|i: int| 0 <= i < self.jobs.len() ==> (#[trigger] self.jobs[i]).ctx
            < self.ctxs.len()
    }

    /// One more file with what it inherits, unless it is covered already.
    pub open spec fn with_job(
        self,
        path: Seq<char>,
        canonical: Seq<char>,
        display: Seq<char>,
        ctx: Option<Seq<(usize, Ctx)>>,
    ) -> Agenda {
        let a = Agenda { ctxs: self.ctxs.push(ctx), ..self };
        if self.seen.contains(canonical) {
            a
        } else {
            Agenda {
                jobs: self.jobs.push(Task { path, display, ctx: self.ctxs.len() }),
                seen: self.seen.push(canonical),
                ..a
            }
        }
    }

    /// The first `n` files of a journal, each with what the tree declares
    /// ahead of it.
    pub open spec fn with_tree(self, book: Book, displays: Seq<Seq<char>>, n: nat) -> Agenda
        decreases n,
    {
        if n == 0 {
            self
        } else {
            let i = n - 1;
            self.with_tree(book, displays, i as nat).with_job(
                book.files[i].path,
                book.files[i].canonical,
                displays[i],
                Some(book.inherited(i)),
            )
        }
    }

    /// The run as one that could not do all it was asked.
    pub open spec fn failed(self) -> Agenda {
        Agenda { status: self.status.worse(Status::Error), ..self }
    }
}

/// Adding a job keeps a plan well-formed.
pub proof fn lemma_with_job(
    a: Agenda,
    path: Seq<char>,
    canonical: Seq<char>,
    display: Seq<char>,
    ctx: Option<Seq<(usize, Ctx)>>,
)
    requires
        a.wf(),
    ensures
        a.with_job(path, canonical, display, ctx).wf(),
{
    let b = a.with_job(path, canonical, display, ctx);
    assert forall|i: int| 0 <= i < b.jobs.len() implies (#[trigger] b.jobs[i]).ctx
        < b.ctxs.len() by {
        if i < a.jobs.len() {
            assert(b.jobs[i] == a.jobs[i]);
        }
    }
    if !a.seen.contains(canonical) {
        assert forall|i: int, j: int|
            0 <= i < b.seen.len() && 0 <= j < b.seen.len() && i != j implies b.seen[i]
            != b.seen[j] by {
            if i < a.seen.len() {
                assert(b.seen[i] == a.seen[i]);
                assert(a.seen.contains(a.seen[i]));
            }
            if j < a.seen.len() {
                assert(b.seen[j] == a.seen[j]);
                assert(a.seen.contains(a.seen[j]));
            }
        }
    }
}

/// However many trees are walked, no file is formatted twice and none that
/// was covered is dropped.
pub proof fn a_file_is_formatted_once(
    a: Agenda,
    book: Book,
    displays: Seq<Seq<char>>,
    n: nat,
)
    requires
        a.wf(),
        n <= book.files.len(),
    ensures
        a.with_tree(book, displays, n).wf(),
        a.seen.is_prefix_of(a.with_tree(book, displays, n).seen),
        forall|i: int|
            0 <= i < n ==> a.with_tree(book, displays, n).seen.contains(
                #[trigger] book.files[i].canonical,
            ),
        a.with_tree(book, displays, n).status == a.status,
    decreases n,
{
    if n > 0 {
        let m = (n - 1) as nat;
        a_file_is_formatted_once(a, book, displays, m);
        let before = a.with_tree(book, displays, m);
        let f = book.files[m as int];
        let after = a.with_tree(book, displays, n);
        lemma_with_job(
            before,
            f.path,
            f.canonical,
            displays[m as int],
            Some(book.inherited(m as int)),
        );
        assert(before.seen.is_prefix_of(after.seen));
        assert forall|i: int| 0 <= i < n implies after.seen.contains(
            #[trigger] book.files[i].canonical,
        ) by {
            if i < m {
                let k = choose|k: int|
                    0 <= k < before.seen.len() && before.seen[k] == book.files[i].canonical;
                assert(after.seen[k] == before.seen[k]);
            } else if !before.seen.contains(f.canonical) {
                assert(after.seen.last() == f.canonical);
            }
        }
    }
}

impl Plan {
    /// A plan with nothing on it.
    #[must_use]
    pub fn new() -> (r: Self)
        ensures
            r@ == Agenda::empty(),
            r@.wf(),
    {
        let r = Plan { ctxs: Vec::new(), jobs: Vec::new(), seen: Vec::new(), status: Status::Success };
        assert(r@ =~= Agenda::empty());
        r
    }

    /// Whether a file is covered already.
    #[must_use]
    pub fn covers(&self, canonical: &str) -> (r: bool)
        ensures
            r == self@.seen.contains(canonical@),
    {
        let ghost all = self@.seen;
        let mut i: usize = 0;
        while i < self.seen.len()
            invariant
                i <= self.seen@.len(),
                all == text::texts(self.seen@),
                forall|j: int| 0 <= j < i ==> #[trigger] all[j] != canonical@,
            decreases self.seen@.len() - i,
        {
            assert(all[i as int] == self.seen@[i as int]@);
            if text::same(self.seen[i].as_str(), canonical) {
                return true;
            }
            i = i + 1;
        }
        false
    }

    fn push_job(
        &mut self,
        path: &str,
        canonical: &str,
        display: &str,
        ctx: Option<Vec<(usize, AmountCtx)>>,
    )
        requires
            old(self)@.wf(),
        ensures
            final(self)@ == old(self)@.with_job(path@, canonical@, display@, inherited(ctx)),
            final(self)@.wf(),
    {
        let ghost before = self@;
        let ghost brought = inherited(ctx);
        proof {
            lemma_with_job(before, path@, canonical@, display@, brought);
        }
        let known = self.covers(canonical);
        let at: usize = self.ctxs.len();
        self.ctxs.push(ctx);
        if !known {
            self.jobs.push(Job { path: path.to_owned(), display: display.to_owned(), ctx: at });
            self.seen.push(canonical.to_owned());
        }
        assert(self@ =~= before.with_job(path@, canonical@, display@, brought));
    }

    /// Add every file of a walked tree, each styled by what the tree declares
    /// ahead of it, in the order the files are read in. `displays` names them
    /// in output.
    pub fn push_tree(&mut self, journal: &Journal, displays: &[String])
        requires
            old(self)@.wf(),
            displays@.len() == journal@.files.len(),
        ensures
            final(self)@ == old(self)@.with_tree(
                journal@,
                text::texts(displays@),
                journal@.files.len(),
            ),
            final(self)@.wf(),
    {
        let ghost book = journal@;
        let ghost names = text::texts(displays@);
        let ghost start = self@;
        let mut i: usize = 0;
        while i < journal.files.len()
            invariant
                i <= journal.files@.len(),
                book == journal@,
                names == text::texts(displays@),
                displays@.len() == book.files.len(),
                book.files.len() == journal.files@.len(),
                self@ == start.with_tree(book, names, i as nat),
                self@.wf(),
            decreases journal.files@.len() - i,
        {
            let file = &journal.files[i];
            assert(book.files[i as int] == file@);
            assert(names[i as int] == displays@[i as int]@);
            let styles = journal.inherited_styles(i);
            self.push_job(
                file.path.as_str(),
                file.canonical.as_str(),
                displays[i].as_str(),
                Some(styles),
            );
            i = i + 1;
        }
    }

    /// Add a root whose tree includes itself. The root itself is perfectly
    /// formattable, so it is kept alone, with its own directives, rather than
    /// dropped.
    pub fn push_cycle(&mut self, path: &str, canonical: &str, display: &str)
        requires
            old(self)@.wf(),
        ensures
            final(self)@ == old(self)@.failed().with_job(path@, canonical@, display@, None),
            final(self)@.wf(),
    {
        self.push_failure();
        self.push_job(path, canonical, display, None);
    }

    /// Note a root or operand that there is nothing to format of.
    pub fn push_failure(&mut self)
        requires
            old(self)@.wf(),
        ensures
            final(self)@ == old(self)@.failed(),
            final(self)@.wf(),
    {
        let ghost before = self@;
        self.status.merge(Status::Error);
        assert(self@ =~= before.failed());
        assert(self@.jobs == before.jobs);
    }

    /// Add a single file, with what its own include tree brings it, unless it
    /// is covered already.
    pub fn push_file(
        &mut self,
        path: &str,
        canonical: &str,
        styles: Option<Vec<(usize, AmountCtx)>>,
    )
        requires
            old(self)@.wf(),
        ensures
            final(self)@ == (if old(self)@.seen.contains(canonical@) {
                old(self)@
            } else {
                old(self)@.with_job(path@, canonical@, path@, inherited(styles))
            }),
            final(self)@.wf(),
    {
        if !self.covers(canonical) {
            self.push_job(path, canonical, path, styles);
        }
    }
}

// ---- what becomes of a file ----

/// A file's text, formatted with what it inherits, or with its own
/// directives alone.
pub open spec fn transformed(
    src: Seq<char>,
    ctx: Option<Seq<(usize, Ctx)>>,
    opts: Options,
) -> Seq<char> {
    match ctx {
        Some(i) => tree::format_at_spec(src, i, opts),
        None => fmt::format_spec(src, fmt::scan_ctx_spec(fmt::lines_spec(src)), opts),
    }
}

/// The transform applied to a file's contents. With a context, amounts
/// restyle to the include tree's declared styles; without one, to the styles
/// declared in the text itself.
#[must_use]
pub fn transform(
    opts: Options,
    src: &str,
    ctx: &Option<Vec<(usize, AmountCtx)>>,
) -> (r: String)
    ensures
        r@ == transformed(src@, inherited(*ctx), opts),
{
    match ctx {
        Some(i) => tree::format_opts_at(src, i.as_slice(), opts),
        None => fmt::format_opts_scanned(src, opts),
    }
}

/// The unified diff of two texts with so many lines of context, under a header
/// with two names.
pub uninterp spec fn unified(
    before: Seq<char>,
    after: Seq<char>,
    old_name: Seq<char>,
    new_name: Seq<char>,
    radius: nat,
) -> Seq<char>;

/// How many lines of context a diff shows around a change.
pub const DIFF_CONTEXT: usize = 3;

/// `similar::TextDiff::from_lines` of two texts, as its `unified_diff` with a
/// `context_radius` prints it under a `header` of two names. The two texts, the
/// two names and the radius decide the result.
#[verifier::external_body]
fn unified_diff(
    before: &str,
    after: &str,
    old_name: &str,
    new_name: &str,
    radius: usize,
) -> (r: String)
    ensures
        r@ == unified(before@, after@, old_name@, new_name@, radius as nat),
{
    similar::TextDiff::from_lines(before, after)
        .unified_diff()
        .context_radius(radius)
        .header(old_name, new_name)
        .to_string()
}

/// The diff of one file's before and after.
pub open spec fn diff_spec(display: Seq<char>, before: Seq<char>, after: Seq<char>) -> Seq<char> {
    unified(before, after, "a/"@ + display, "b/"@ + display, DIFF_CONTEXT as nat)
}

/// A unified diff of one file's before and after, headed the way `git diff`
/// heads its own.
#[must_use]
pub fn diff(display: &str, before: &str, after: &str) -> (r: String)
    ensures
        r@ == diff_spec(display@, before@, after@),
{
    unified_diff(
        before,
        after,
        text::cat("a/", display).as_str(),
        text::cat("b/", display).as_str(),
        DIFF_CONTEXT,
    )
}

/// What a run does with one file.
#[derive(Debug)]
pub enum Step {
    /// It is formatted: leave it untouched on disk.
    Keep,
    /// It is not: print the diff, if one is asked for, and name it on stderr.
    Report(Option<String>),
    /// Print the diff, if one is asked for, write this text, and list the
    /// file where that is asked for.
    Rewrite(Option<String>, String, bool),
}

/// What a run does with one file.
#[verifier::ext_equal]
pub enum Doing {
    Keep,
    Report(Option<Seq<char>>),
    Rewrite(Option<Seq<char>>, Seq<char>, bool),
}

impl View for Step {
    type V = Doing;

    open spec fn view(&self) -> Doing {
        match self {
            Step::Keep => Doing::Keep,
            Step::Report(d) => Doing::Report(text::opt_text(*d)),
            Step::Rewrite(d, s, b) => Doing::Rewrite(text::opt_text(*d), s@, *b),
        }
    }
}

/// What a run does with a file that reads `src` and formats to `out`. A diff
/// names the file already, so it takes the place of the listing.
pub open spec fn step_spec(
    mode: Mode,
    display: Seq<char>,
    src: Seq<char>,
    out: Seq<char>,
) -> Doing {
    let shown = if mode.diff {
        Some(diff_spec(display, src, out))
    } else {
        None
    };
    if out == src {
        Doing::Keep
    } else if mode.check {
        Doing::Report(shown)
    } else {
        Doing::Rewrite(shown, out, !mode.quiet && !mode.diff)
    }
}

/// What a run does with a file: nothing where formatting changes nothing.
#[must_use]
pub fn file_step(
    mode: Mode,
    opts: Options,
    display: &str,
    src: &str,
    ctx: &Option<Vec<(usize, AmountCtx)>>,
) -> (r: Step)
    ensures
        r@ == step_spec(mode, display@, src@, transformed(src@, inherited(*ctx), opts)),
{
    let out = transform(opts, src, ctx);
    if text::same(out.as_str(), src) {
        return Step::Keep;
    }
    let shown = if mode.diff {
        Some(diff(display, src, out.as_str()))
    } else {
        None
    };
    if mode.check {
        Step::Report(shown)
    } else {
        Step::Rewrite(shown, out, !mode.quiet && !mode.diff)
    }
}

/// What a run prints for standard input, and how it ends. There is no file to
/// write, so a diff takes the place of the formatted text rather than
/// accompanying it.
pub open spec fn stdin_spec(mode: Mode, src: Seq<char>, out: Seq<char>) -> (Seq<char>, Status) {
    (
        if mode.diff {
            if out != src {
                diff_spec("<stdin>"@, src, out)
            } else {
                Seq::empty()
            }
        } else if mode.check {
            Seq::empty()
        } else {
            out
        },
        if mode.check && out != src {
            Status::Unformatted
        } else {
            Status::Success
        },
    )
}

/// What a run prints for standard input, and how it ends.
#[must_use]
pub fn stdin_step(mode: Mode, opts: Options, src: &str) -> (r: (String, Status))
    ensures
        (r.0@, r.1) == stdin_spec(mode, src@, transformed(src@, None, opts)),
{
    let out = fmt::format_opts_scanned(src, opts);
    let changed = !text::same(out.as_str(), src);
    let status = if mode.check && changed {
        Status::Unformatted
    } else {
        Status::Success
    };
    if mode.diff && changed {
        (diff("<stdin>", src, out.as_str()), status)
    } else if mode.diff || mode.check {
        let nothing = String::new();
        assert(nothing@ =~= Seq::<char>::empty());
        (nothing, status)
    } else {
        (out, status)
    }
}

/// A run that checks never writes, and a run that writes leaves a file that
/// it would not change again alone.
pub proof fn a_dry_run_writes_nothing(
    mode: Mode,
    display: Seq<char>,
    src: Seq<char>,
    out: Seq<char>,
)
    ensures
        mode.check ==> !(step_spec(mode, display, src, out) is Rewrite),
        step_spec(mode, display, src, src) == Doing::Keep,
{
}

// ---- what is said at the end ----

/// A counted noun.
pub open spec fn plural_spec(n: nat, noun: Seq<char>) -> Seq<char> {
    if n == 1 {
        "1 "@ + noun
    } else {
        text::digits_spec(n) + " "@ + noun + "s"@
    }
}

/// `1 transaction`, `2 transactions` — never `1 transaction(s)`.
#[must_use]
pub fn plural(n: usize, noun: &str) -> (r: String)
    ensures
        r@ == plural_spec(n as nat, noun@),
{
    if n == 1 {
        text::cat("1 ", noun)
    } else {
        let mut s = text::cat3(text::digits(n).as_str(), " ", noun);
        s.append("s");
        s
    }
}

} // verus!
