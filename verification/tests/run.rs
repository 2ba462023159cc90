use hledger_x::add::parser::{Journal, ParseError};
use hledger_x::add::walk::{IncludeTarget, Step, Walk};
use hledger_x::fmt::Options;
use hledger_x::run::{
    diff, file_step, journal_file, plural, select, stdin_step, Mode, Plan, SortFlags, Target,
};
use hledger_x::status::Status;

/// The journal that a set of files makes up, read from the one named first.
fn read_tree(files: &[(&str, &str)], main: &str) -> Result<Journal, ParseError> {
    let find = |name: &str| files.iter().find(|f| f.0 == name).map(|f| f.1);
    let year = chrono::Datelike::year(&chrono::Local::now().date_naive());
    let mut walk = Walk::new(year);
    let own = main.to_owned();
    let mut step = walk.begin(own.clone(), own.clone(), own, find(main).unwrap());
    loop {
        step = match step {
            Step::Continue => walk.step(),
            Step::Include { path, pattern } => {
                let full = match path.rfind('/') {
                    Some(i) => format!("{}/{}", &path[..i], pattern),
                    None => pattern,
                };
                let wanted = glob::Pattern::new(&full).unwrap();
                let mut names: Vec<&str> = files.iter().map(|f| f.0).collect();
                names.retain(|n| wanted.matches(n));
                names.sort_unstable();
                let mut targets = Vec::new();
                for n in names {
                    targets.push(IncludeTarget {
                        path: n.to_owned(),
                        shown: n.to_owned(),
                        canonical: n.to_owned(),
                        content: Ok(find(n).unwrap().to_owned()),
                    });
                }
                walk.answer(targets);
                walk.step()
            }
            Step::Cycle { shown } => return Err(ParseError::Cycle(shown)),
            Step::Done => return Ok(walk.finish()),
        };
    }
}

const UNFORMATTED: &str = "2025-01-01 x\n  A:B  1 USD\n";
const FORMATTED: &str = "2025-01-01 x\n    A:B  1 USD\n";

fn plain() -> Options {
    Options {
        sort: false,
        explicit: false,
    }
}

fn mode(check: bool, diff: bool, quiet: bool) -> Mode {
    Mode { check, diff, quiet }
}

fn names(v: &[&str]) -> Vec<String> {
    v.iter().map(|s| (*s).to_owned()).collect()
}

#[test]
fn a_dash_stands_alone() {
    assert!(matches!(select(&names(&["-"]), &[], None, None), Target::Stdin));
    assert!(matches!(
        select(&names(&["-", "a"]), &[], None, None),
        Target::Mixed
    ));
    assert!(matches!(
        select(&names(&["-"]), &names(&["r"]), None, None),
        Target::Mixed
    ));
}

#[test]
fn nothing_named_means_the_configured_journal() {
    let some = |s: &str| Some(s.to_owned());
    assert!(matches!(
        select(&[], &[], some("c"), some("e")),
        Target::Journal(j) if j == "c"
    ));
    assert!(matches!(
        select(&[], &[], None, some("e")),
        Target::Journal(j) if j == "e"
    ));
    assert!(matches!(select(&[], &[], None, None), Target::Nothing));
    assert!(matches!(
        select(&names(&["a"]), &[], some("c"), None),
        Target::Operands
    ));
    assert_eq!(journal_file(some("f"), some("c"), some("e")), some("f"));
}

#[test]
fn a_sort_flag_overrides_the_config_either_way() {
    let flags = |sort: bool, no_sort: bool| SortFlags { sort, no_sort };
    assert!(flags(true, false).resolve(false));
    assert!(!flags(false, true).resolve(true));
    assert!(flags(false, false).resolve(true));
    assert!(!flags(false, false).resolve(false));
}

#[test]
fn a_file_found_twice_has_one_job() {
    let files = [
        ("main.journal", "include sub.journal\n"),
        ("sub.journal", "commodity 1_000.00 EUR\n"),
    ];
    let journal = read_tree(&files, "main.journal").unwrap();
    let shown = names(&["main.journal", "sub.journal"]);
    let mut plan = Plan::new();
    plan.push_tree(&journal, &shown);
    plan.push_tree(&journal, &shown);
    plan.push_file("./sub.journal", "sub.journal", None);
    plan.push_file("other.journal", "other.journal", None);
    let paths: Vec<&str> = plan.jobs.iter().map(|j| j.path.as_str()).collect();
    assert_eq!(paths, vec!["main.journal", "sub.journal", "other.journal"]);
    assert_eq!(plan.status, Status::Success);
    plan.push_cycle("loop.journal", "loop.journal", "loop");
    assert_eq!(plan.status, Status::Error);
    assert_eq!(plan.jobs[3].display, "loop");
    assert!(plan.ctxs[plan.jobs[3].ctx].is_none());
}

#[test]
fn an_unchanged_file_is_left_alone() {
    for m in [mode(false, false, false), mode(true, false, false), mode(false, true, false)] {
        let step = file_step(m, plain(), "a", FORMATTED, &None);
        assert!(matches!(step, hledger_x::run::Step::Keep));
    }
}

#[test]
fn a_changed_file_is_written_or_reported() {
    let step = file_step(mode(false, false, false), plain(), "a", UNFORMATTED, &None);
    assert!(matches!(
        step,
        hledger_x::run::Step::Rewrite(None, text, true) if text == FORMATTED
    ));
    let step = file_step(mode(true, false, false), plain(), "a", UNFORMATTED, &None);
    assert!(matches!(step, hledger_x::run::Step::Report(None)));
    let step = file_step(mode(true, true, false), plain(), "a.journal", UNFORMATTED, &None);
    let hledger_x::run::Step::Report(Some(shown)) = step else {
        panic!("expected a diff");
    };
    assert_eq!(
        shown,
        "\
--- a/a.journal
+++ b/a.journal
@@ -1,2 +1,2 @@
 2025-01-01 x
-  A:B  1 USD
+    A:B  1 USD
"
    );
    assert_eq!(shown, diff("a.journal", UNFORMATTED, FORMATTED));
    // A diff names the file already.
    let step = file_step(mode(false, true, false), plain(), "a", UNFORMATTED, &None);
    assert!(matches!(step, hledger_x::run::Step::Rewrite(Some(_), _, false)));
    let preview = Mode::preview(false, true, false);
    let step = file_step(preview, plain(), "a", UNFORMATTED, &None);
    assert!(matches!(step, hledger_x::run::Step::Report(Some(_))));
}

#[test]
fn standard_input_is_printed_or_judged() {
    let (out, status) = stdin_step(mode(false, false, false), plain(), UNFORMATTED);
    assert_eq!((out.as_str(), status), (FORMATTED, Status::Success));
    let (out, status) = stdin_step(mode(true, false, false), plain(), UNFORMATTED);
    assert_eq!((out.as_str(), status), ("", Status::Unformatted));
    let (out, status) = stdin_step(mode(true, false, false), plain(), FORMATTED);
    assert_eq!((out.as_str(), status), ("", Status::Success));
    let (out, status) = stdin_step(mode(false, true, false), plain(), UNFORMATTED);
    assert!(out.starts_with("--- a/<stdin>\n+++ b/<stdin>\n"), "{out}");
    assert_eq!(status, Status::Success);
    let (out, _) = stdin_step(mode(false, true, false), plain(), FORMATTED);
    assert_eq!(out, "");
}

#[test]
fn a_file_in_a_tree_takes_the_styles_declared_ahead_of_it() {
    let files = [
        ("main.journal", "include conf.journal\ninclude sub.journal\n"),
        ("conf.journal", "commodity 1_000.00 EUR\n"),
        ("sub.journal", "2025-01-01 x\n    A:B  1234EUR\n"),
    ];
    let journal = read_tree(&files, "main.journal").unwrap();
    let mut plan = Plan::new();
    plan.push_tree(&journal, &names(&["main.journal", "conf.journal", "sub.journal"]));
    let job = &plan.jobs[2];
    let step = file_step(
        mode(false, false, false),
        plain(),
        &job.display,
        files[2].1,
        &plan.ctxs[job.ctx],
    );
    assert!(matches!(
        step,
        hledger_x::run::Step::Rewrite(None, text, true)
            if text == "2025-01-01 x\n    A:B  1_234 EUR\n"
    ));
}

#[test]
fn nouns_are_counted() {
    assert_eq!(plural(0, "transaction"), "0 transactions");
    assert_eq!(plural(1, "transaction"), "1 transaction");
    assert_eq!(plural(12, "transaction"), "12 transactions");
}

#[test]
fn a_worse_end_outranks_a_better_one() {
    let mut s = Status::default();
    assert_eq!(s.code(), 0);
    s.merge(Status::Unformatted);
    assert_eq!(s.code(), 1);
    s.merge(Status::Error);
    s.merge(Status::Usage);
    assert_eq!(s.code(), 3);
    assert_eq!(Status::Usage.code(), 2);
}

#[test]
fn fatal_problems_are_told_in_a_line() {
    let io = ParseError::Io("a.journal".to_owned(), "no such file".to_owned());
    assert_eq!(io.to_text(), "a.journal: no such file");
    let cycle = ParseError::Cycle("a.journal".to_owned());
    assert_eq!(cycle.to_text(), "include cycle: a.journal is included twice");
}
