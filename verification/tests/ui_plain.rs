use hledger_x::add::filemap::FileMap;
use hledger_x::add::parser::{Journal, ParseError};
use hledger_x::add::recovery::{parse_transactions, record};
use hledger_x::add::ui::context::SessionCtx;
use hledger_x::add::ui::plain::{bank, prompt, replay, take_answer, take_line, Action};
use hledger_x::add::ui::session::Session;
use hledger_x::add::walk::{IncludeTarget, Step, Walk};
use hledger_x::add::write::{NewTransaction, Posting};
use hledger_x::config::Config;
use hledger_x::date::Date;

fn today() -> Date {
    Date::new(2026, 8, 10).unwrap()
}

/// The journal that a set of files makes up, read from the one named first.
fn read_tree(files: &[(&str, &str)], main: &str) -> Result<Journal, ParseError> {
    let find = |name: &str| files.iter().find(|f| f.0 == name).map(|f| f.1);
    let year = chrono::Datelike::year(&chrono::Local::now().date_naive());
    let mut walk = Walk::new(year);
    let own = main.to_owned();
    let mut step = walk.begin(own.clone(), own.clone(), own, find(main).unwrap());
    loop {
        step = match step {
            Step::Continue => walk.step(),
            Step::Include { path, pattern } => {
                let full = match path.rfind('/') {
                    Some(i) => format!("{}/{}", &path[..i], pattern),
                    None => pattern,
                };
                let wanted = glob::Pattern::new(&full).unwrap();
                let mut names: Vec<&str> = files.iter().map(|f| f.0).collect();
                names.retain(|n| wanted.matches(n));
                names.sort_unstable();
                let mut targets = Vec::new();
                for n in names {
                    targets.push(IncludeTarget {
                        path: n.to_owned(),
                        shown: n.to_owned(),
                        canonical: n.to_owned(),
                        content: Ok(find(n).unwrap().to_owned()),
                    });
                }
                walk.answer(targets);
                walk.step()
            }
            Step::Cycle { shown } => return Err(ParseError::Cycle(shown)),
            Step::Done => return Ok(walk.finish()),
        };
    }
}

fn session_over(journal_src: &str, config: Config) -> Session {
    let journal = read_tree(&[("main.journal", journal_src)], "main.journal").unwrap();
    let map = FileMap::build(journal_src);
    let ctx = SessionCtx::new(journal, config, today(), "main.journal".to_owned(), &map);
    Session::new(ctx)
}

/// Carry out what the session asks for, against a recovery file in memory.
fn drive(session: &mut Session, recovery: &mut String, input: &str) -> String {
    let mut out = String::new();
    if let Some(told) = replay(session, parse_transactions(recovery)) {
        out.push_str(&told);
        out.push('\n');
    }
    let mut lines = input.split_inclusive('\n');
    loop {
        out.push_str(&prompt(session));
        let Some(line) = lines.next() else { break };
        let mut action = take_line(session, line);
        if let Action::Ask(question) = action {
            out.push_str(&question);
            let Some(answer) = lines.next() else { break };
            action = take_answer(session, answer);
        }
        match action {
            Action::Nothing => {}
            Action::Say(s) => {
                out.push_str(&s);
                out.push('\n');
            }
            Action::Ask(_) => panic!("a question about a question"),
            Action::Record(txn) => {
                recovery.push_str(&record(&txn));
                for l in bank(session, txn) {
                    out.push_str(&l);
                    out.push('\n');
                }
            }
            Action::Rewrite(s) => {
                recovery.clear();
                for t in &session.completed {
                    recovery.push_str(&record(t));
                }
                out.push_str(&s);
                out.push('\n');
            }
            Action::Stop => break,
        }
    }
    out
}

fn run_session(journal_src: &str, input: &str) -> (Vec<NewTransaction>, String) {
    run_session_with(journal_src, Config::default(), input)
}

fn run_session_with(
    journal_src: &str,
    config: Config,
    input: &str,
) -> (Vec<NewTransaction>, String) {
    let mut session = session_over(journal_src, config);
    let out = drive(&mut session, &mut String::new(), input);
    (session.completed, out)
}

fn posting(p: &Posting) -> (String, String) {
    (p.account.clone(), p.amount.clone())
}

const JOURNAL: &str = "\
2026-08-05 Rewe
    expenses:groceries        12.00 EUR
    assets:bank:checking     -12.00 EUR
";

#[test]
fn a_full_transaction_via_pipes() {
    // date(accept today), desc, account(accept template), amount,
    // account 2 (accept), amount (accept balancing), empty account =
    // finish; EOF ends.
    let input = "\n Rewe\n\n18.20 EUR\n\n\n.\n";
    let (done, out) = run_session(JOURNAL, input);
    assert_eq!(done.len(), 1, "output was:\n{out}");
    assert_eq!(done[0].description, "Rewe");
    assert_eq!(
        done[0].postings.iter().map(posting).collect::<Vec<_>>(),
        vec![
            ("expenses:groceries".to_owned(), "18.20 EUR".to_owned()),
            ("assets:bank:checking".to_owned(), "-18.20 EUR".to_owned()),
        ]
    );
    // The finished transaction is echoed, formatted.
    assert!(out.contains("2026-08-10 Rewe"), "{out}");
}

#[test]
fn eof_mid_draft_still_returns_completed_transactions() {
    let input = "\nRewe\n\n18.20 EUR\n\n\n.\n\nEdeka\n";
    let (done, _out) = run_session(JOURNAL, input);
    assert_eq!(done.len(), 1);
}

#[test]
fn invalid_input_reprompts() {
    let input = "banana\n";
    let (done, out) = run_session(JOURNAL, input);
    assert!(done.is_empty());
    assert!(out.contains("error: cannot understand date"), "{out}");
}

#[test]
fn a_confirmed_account_via_pipe_is_used() {
    let src = "payee X\naccount expenses:groceries\naccount assets:cash\ncommodity 1.00 EUR\n";
    let cfg = Config {
        strict: true,
        ..Config::default()
    };
    // date, desc, undeclared account → y, amount, second account
    // (declared), empty amount writes the balancing amount and finishes.
    let input = "\nX\nexpenses:grocerys\ny\n5 EUR\nassets:cash\n\n";
    let (done, out) = run_session_with(src, cfg, input);
    assert_eq!(done.len(), 1, "{out}");
    assert!(out.contains("not a declared account"), "{out}");
    assert!(out.contains("use it anyway"), "{out}");
    assert!(out.contains("did you mean expenses:groceries"), "{out}");
    assert_eq!(done[0].postings[0].account, "expenses:grocerys");
    // The empty amount was written out explicitly, in the declared style.
    assert_eq!(done[0].postings[1].amount, "-5.00 EUR");
}

#[test]
fn declining_an_undeclared_account_stays_on_the_field() {
    let src = "account expenses:groceries\n";
    let cfg = Config {
        strict: true,
        ..Config::default()
    };
    let input = "\nX\nexpenses:zzz\nn\n";
    let (done, out) = run_session_with(src, cfg, input);
    assert!(done.is_empty());
    assert!(out.contains("kept the field"), "{out}");
}

#[test]
fn recovery_is_replayed_and_undo_works() {
    // A dead session left one transaction behind.
    let mut recovery = record(&NewTransaction {
        date: today(),
        description: "Ghost".into(),
        comment: String::new(),
        postings: vec![Posting::new("a", "1 EUR"), Posting::new("b", "-1 EUR")],
    });
    let mut session = session_over(JOURNAL, Config::default());
    // Undo it via `u` at the date prompt, then EOF.
    let text = drive(&mut session, &mut recovery, "u\n");
    assert!(text.contains("recovered 1 transaction"), "{text}");
    assert!(text.contains("undid: 2026-08-10 Ghost"), "{text}");
    assert!(session.completed.is_empty());
    assert!(parse_transactions(&recovery).is_empty());
}

#[test]
fn the_prompt_shows_what_enter_would_take() {
    let mut session = session_over(JOURNAL, Config::default());
    assert_eq!(prompt(&session), "date [2026-08-10]: ");
    take_line(&mut session, "\n");
    assert_eq!(prompt(&session), "description: ");
    take_line(&mut session, "Rewe\r\n");
    assert_eq!(session.draft.description, "Rewe");
    assert!(prompt(&session).starts_with("account 1 [expenses:groceries]"));
}
