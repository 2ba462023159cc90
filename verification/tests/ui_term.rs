use hledger_x::add::filemap::FileMap;
use hledger_x::add::parser::{Journal, ParseError};
use hledger_x::add::ui::context::SessionCtx;
use hledger_x::add::ui::frame::{clip, log_rows, Frame, Span};
use hledger_x::add::ui::session::Session;
use hledger_x::add::ui::term::{Act, Code, EditorResult, Key, Note, Ui};
use hledger_x::add::walk::{IncludeTarget, Step, Walk};
use hledger_x::add::write::{NewTransaction, Posting};
use hledger_x::config::Config;
use hledger_x::date::Date;

/// The journal that a set of files makes up, read from the one named first.
fn read_tree(files: &[(&str, &str)], main: &str) -> Result<Journal, ParseError> {
    let find = |name: &str| files.iter().find(|f| f.0 == name).map(|f| f.1);
    let year = chrono::Datelike::year(&chrono::Local::now().date_naive());
    let mut walk = Walk::new(year);
    let own = main.to_owned();
    let mut step = walk.begin(own.clone(), own.clone(), own, find(main).unwrap());
    loop {
        step = match step {
            Step::Continue => walk.step(),
            Step::Include { path, pattern } => {
                let full = match path.rfind('/') {
                    Some(i) => format!("{}/{}", &path[..i], pattern),
                    None => pattern,
                };
                let wanted = glob::Pattern::new(&full).unwrap();
                let mut names: Vec<&str> = files.iter().map(|f| f.0).collect();
                names.retain(|n| wanted.matches(n));
                names.sort_unstable();
                let mut targets = Vec::new();
                for n in names {
                    targets.push(IncludeTarget {
                        path: n.to_owned(),
                        shown: n.to_owned(),
                        canonical: n.to_owned(),
                        content: Ok(find(n).unwrap().to_owned()),
                    });
                }
                walk.answer(targets);
                walk.step()
            }
            Step::Cycle { shown } => return Err(ParseError::Cycle(shown)),
            Step::Done => return Ok(walk.finish()),
        };
    }
}

const JOURNAL: &str = "\
2026-08-05 Rewe
    expenses:groceries        12.00 EUR
    assets:bank:checking     -12.00 EUR
";

fn today() -> Date {
    Date::new(2026, 8, 10).unwrap()
}

fn session() -> Session {
    let journal = read_tree(&[("main.journal", JOURNAL)], "main.journal").unwrap();
    let map = FileMap::build(JOURNAL);
    let name = "main.journal".to_owned();
    Session::new(SessionCtx::new(journal, Config::default(), today(), name, &map))
}

fn txn(description: &str) -> NewTransaction {
    NewTransaction {
        date: today(),
        description: description.to_owned(),
        comment: String::new(),
        postings: vec![
            Posting::new("expenses:groceries", "1 EUR"),
            Posting::new("assets:bank:checking", "-1 EUR"),
        ],
    }
}

fn complete(s: &mut Session, description: &str) {
    s.complete(txn(description));
}

fn text(rows: &[Vec<Span>]) -> String {
    rows.iter()
        .map(|r| r.iter().map(|s| s.text.as_str()).collect::<String>())
        .collect::<Vec<_>>()
        .join("\n")
}

fn press(ui: &mut Ui, s: &mut Session, code: Code) -> Act {
    ui.handle(s, Key { code, ctrl: false })
}

fn control(ui: &mut Ui, s: &mut Session, c: char) -> Act {
    ui.handle(
        s,
        Key {
            code: Code::Char(c),
            ctrl: true,
        },
    )
}

/// Get to the first account prompt of a transaction.
fn at_account(s: &mut Session) {
    s.submit();
    s.draft.set_buffer("Rewe");
    s.submit();
}

#[test]
fn tab_inserts_a_unique_completion_and_leaves_the_menu_shut() {
    let mut s = session();
    let mut ui = Ui::default();
    at_account(&mut s);
    s.draft.set_buffer("roc");
    press(&mut ui, &mut s, Code::Tab);
    assert_eq!(s.draft.buffer, "expenses:groceries");
    assert!(ui.menu.is_none());
}

#[test]
fn tab_on_an_ambiguous_query_completes_as_far_as_it_can_and_opens_the_menu() {
    let mut s = session();
    let mut ui = Ui::default();
    at_account(&mut s);
    // Both accounts match `e`, and they agree on nothing, so this is
    // the pure-menu case.
    s.draft.set_buffer("e");
    press(&mut ui, &mut s, Code::Tab);
    assert_eq!(s.draft.buffer, "e");
    let menu = ui.menu.as_ref().expect("menu should open");
    assert_eq!(menu.candidates.len(), 2);
    // A second Tab cycles it rather than re-completing.
    press(&mut ui, &mut s, Code::Tab);
    assert_eq!(ui.menu.as_ref().map(|m| m.selected), Some(1));
}

/// What the user actually sees. The prompt paints the buffer un-dimmed
/// and the suggestion dimmed, so a suggested account must reach the
/// screen inside a dim span and *not* inside the buffer span.
#[test]
fn a_suggested_account_is_painted_dim_and_not_into_the_buffer() {
    let mut s = session();
    let mut ui = Ui::default();
    at_account(&mut s);
    let frame = ui.frame(&s, 80, 24);
    let row = &frame.rows[frame.prompt_row];
    assert!(row[0].text.contains("account 1"), "{row:?}");
    let shown = row
        .iter()
        .find(|span| span.text.contains("expenses:groceries"))
        .expect("the suggested account should be painted");
    assert!(shown.dim, "the suggested account is painted un-dimmed: {row:?}");
}

#[test]
fn tab_picks_up_a_suggested_account_rather_than_opening_the_list() {
    let mut s = session();
    let mut ui = Ui::default();
    at_account(&mut s);
    // "Rewe" has history, so account 1 is suggested; Tab puts it in the
    // buffer to edit, exactly as it does with the date and amount ghosts.
    assert_eq!(s.suggestion().as_deref(), Some("expenses:groceries"));
    press(&mut ui, &mut s, Code::Tab);
    assert_eq!(s.draft.buffer, "expenses:groceries");
    assert!(ui.menu.is_none());
}

#[test]
fn tab_on_an_empty_account_opens_the_whole_list() {
    let mut s = session();
    let mut ui = Ui::default();
    // A description with no history suggests nothing, so Tab browses the
    // whole pool — which is how history is reached.
    s.submit();
    s.draft.set_buffer("Brand New Payee");
    s.submit();
    assert_eq!(s.suggestion(), None);
    press(&mut ui, &mut s, Code::Tab);
    assert!(s.draft.buffer.is_empty());
    assert!(ui.menu.is_some());
}

#[test]
fn tab_with_no_match_leaves_the_buffer_alone() {
    let mut s = session();
    let mut ui = Ui::default();
    at_account(&mut s);
    s.draft.set_buffer("zzz");
    press(&mut ui, &mut s, Code::Tab);
    assert_eq!(s.draft.buffer, "zzz");
    assert!(ui.menu.is_none());
    assert!(matches!(ui.note, Note::Info(_)));
}

#[test]
fn an_undone_transaction_leaves_the_log() {
    let mut s = session();
    complete(&mut s, "Rewe");
    complete(&mut s, "Edeka");
    let before = text(&log_rows(&s, 40));
    assert!(before.contains("Rewe"), "{before}");
    assert!(before.contains("Edeka"), "{before}");

    assert!(s.undo().is_some());
    let after = text(&log_rows(&s, 40));
    assert!(after.contains("Rewe"), "{after}");
    assert!(!after.contains("Edeka"), "{after}");

    assert!(s.undo().is_some());
    assert!(log_rows(&s, 40).is_empty());
}

#[test]
fn a_log_taller_than_the_budget_keeps_the_newest_and_elides_the_rest() {
    let mut s = session();
    for d in ["One", "Two", "Three"] {
        complete(&mut s, d);
    }
    // Each block is 3 lines plus its blank: room for one, and the
    // elision line.
    let rows = log_rows(&s, 5);
    let out = text(&rows);
    assert!(out.starts_with("  … 2 earlier transaction(s)"), "{out}");
    assert!(out.contains("Three"), "{out}");
    assert!(!out.contains("Two"), "{out}");
    assert!(rows.len() <= 5, "{out}");
}

#[test]
fn a_budget_too_small_for_any_block_shows_only_the_elision() {
    let mut s = session();
    complete(&mut s, "One");
    assert_eq!(text(&log_rows(&s, 2)), "  … 1 earlier transaction(s)");
    assert!(log_rows(&s, 0).is_empty());
}

#[test]
fn a_finished_transaction_is_recorded_and_can_be_undone() {
    let mut s = session();
    let mut ui = Ui::default();
    at_account(&mut s);
    assert!(matches!(press(&mut ui, &mut s, Code::Enter), Act::Continue));
    for c in "5 EUR".chars() {
        press(&mut ui, &mut s, Code::Char(c));
    }
    press(&mut ui, &mut s, Code::Enter);
    press(&mut ui, &mut s, Code::Enter);
    let Act::Record(done) = press(&mut ui, &mut s, Code::Enter) else {
        panic!("expected the transaction to finish");
    };
    ui.recorded(&mut s, done, Some("the disk is full".to_owned()));
    assert_eq!(s.completed.len(), 1);
    assert!(!matches!(ui.note, Note::Silent));
    for c in "u".chars() {
        press(&mut ui, &mut s, Code::Char(c));
    }
    assert!(matches!(press(&mut ui, &mut s, Code::Enter), Act::Rewrite));
    assert!(s.completed.is_empty());
}

#[test]
fn each_outcome_of_the_editor_has_its_note() {
    let mut s = session();
    let mut ui = Ui::default();
    ui.edited(&mut s, EditorResult::Saved(Some(txn("Edeka"))));
    assert_eq!(s.draft.description, "Edeka");
    assert!(matches!(&ui.note, Note::Info(n) if n == "reloaded from editor"));
    let mut noted = txn("Rewe");
    noted.comment = "trip: berlin".to_owned();
    ui.edited(&mut s, EditorResult::Saved(Some(noted)));
    assert_eq!(s.draft.description, "Rewe");
    assert_eq!(s.draft.comment, "trip: berlin");
    ui.edited(&mut s, EditorResult::Failed);
    assert!(matches!(&ui.note, Note::Info(n) if n.contains("nonzero")));
    let editor = "nope".to_owned();
    ui.edited(&mut s, EditorResult::Missing { editor });
    assert!(matches!(&ui.note, Note::Error(n) if n.contains("no editor called nope")));
    ui.edited(
        &mut s,
        EditorResult::Unusable {
            editor: "vi".to_owned(),
            why: "permission denied".to_owned(),
        },
    );
    assert!(matches!(&ui.note, Note::Error(n) if n == "could not run vi: permission denied"));
}

#[test]
fn control_keys_quit_and_clear() {
    let mut s = session();
    let mut ui = Ui::default();
    s.draft.set_buffer("abc");
    control(&mut ui, &mut s, 'u');
    assert_eq!(s.draft.buffer, "");
    assert!(matches!(control(&mut ui, &mut s, 'd'), Act::Quit));
}

#[test]
fn rows_are_clipped_to_the_width() {
    let row = vec![
        Span {
            text: "abc".to_owned(),
            dim: false,
        },
        Span {
            text: "def".to_owned(),
            dim: true,
        },
    ];
    assert_eq!(text(&[clip(&row, 4)]), "abcd");
    assert_eq!(text(&[clip(&row, 10)]), "abcdef");
    assert_eq!(text(&[clip(&row, 0)]), "");
}

#[test]
fn the_cursor_parks_on_the_prompt() {
    let at = |rows: usize, prompt_row: usize, prompt_col: usize, width: usize| {
        let frame = Frame {
            rows: (0..rows).map(|_| Vec::new()).collect(),
            prompt_row,
            prompt_col,
        };
        frame.parking(width)
    };
    assert_eq!(at(5, 1, 7, 80), (3, 7));
    assert_eq!(at(5, 4, 80, 80), (0, 79));
    assert_eq!(at(0, 0, 3, 0), (0, 0));
}
