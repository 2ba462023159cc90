use hledger_x::add::filemap::FileMap;
use hledger_x::add::index::Index;
use hledger_x::add::parser::{Journal, ParseError};
use hledger_x::add::ui::context::SessionCtx;
use hledger_x::add::ui::distance::levenshtein;
use hledger_x::add::ui::draft::Draft;
use hledger_x::add::ui::field::Field;
use hledger_x::add::ui::session::Session;
use hledger_x::add::ui::submit::Submit;
use hledger_x::add::walk::{IncludeTarget, Step, Walk};
use hledger_x::add::write::{NewTransaction, Posting};
use hledger_x::amount::{parse_amount, parse_number, restyle_entered};
use hledger_x::config::{Config, EquityConversion};
use hledger_x::date::Date;
use hledger_x::decimal::Quantity;

fn d(y: i32, m: u32, day: u32) -> Date {
    Date::new(y, m, day).unwrap()
}

fn today() -> Date {
    d(2026, 8, 10)
}

fn dec(s: &str) -> Quantity {
    parse_number(s, Some('.')).unwrap()
}

/// The journal that a set of files makes up, read from the one named first.
fn read_tree(files: &[(&str, &str)], main: &str) -> Result<Journal, ParseError> {
    let find = |name: &str| files.iter().find(|f| f.0 == name).map(|f| f.1);
    let year = chrono::Datelike::year(&chrono::Local::now().date_naive());
    let mut walk = Walk::new(year);
    let own = main.to_owned();
    let mut step = walk.begin(own.clone(), own.clone(), own, find(main).unwrap());
    loop {
        step = match step {
            Step::Continue => walk.step(),
            Step::Include { path, pattern } => {
                let full = match path.rfind('/') {
                    Some(i) => format!("{}/{}", &path[..i], pattern),
                    None => pattern,
                };
                let wanted = glob::Pattern::new(&full).unwrap();
                let mut names: Vec<&str> = files.iter().map(|f| f.0).collect();
                names.retain(|n| wanted.matches(n));
                names.sort_unstable();
                let mut targets = Vec::new();
                for n in names {
                    targets.push(IncludeTarget {
                        path: n.to_owned(),
                        shown: n.to_owned(),
                        canonical: n.to_owned(),
                        content: Ok(find(n).unwrap().to_owned()),
                    });
                }
                walk.answer(targets);
                walk.step()
            }
            Step::Cycle { shown } => return Err(ParseError::Cycle(shown)),
            Step::Done => return Ok(walk.finish()),
        };
    }
}

/// Score every entry with a half-life of ninety days.
fn score(idx: &mut Index) {
    for entries in [
        &mut idx.descriptions,
        &mut idx.payees,
        &mut idx.accounts,
        &mut idx.by_payee,
        &mut idx.commodities,
    ] {
        for e in entries.iter_mut() {
            let total: f64 = e.ages.iter().map(|a| 0.5_f64.powf(*a as f64 / 90.0)).sum();
            e.score = total.to_bits();
        }
    }
}

/// A session over a small journal.
fn session(journal_src: &str) -> (Session, ()) {
    session_with(journal_src, Config::default())
}

/// A config whose `add.default_commodity` is `sample`. `add` takes its
/// default from the configuration alone; a journal's `D` directive is
/// `fmt --explicit`'s business, not `add`'s.
fn config_with_default(sample: &str) -> Config {
    Config {
        default_commodity: Some(sample.to_owned()),
        ..Config::default()
    }
}

fn session_with(journal_src: &str, config: Config) -> (Session, ()) {
    let journal = read_tree(&[("main.journal", journal_src)], "main.journal").unwrap();
    let map = FileMap::build(journal_src);
    let mut ctx = SessionCtx::new(journal, config, today(), "main.journal".to_owned(), &map);
    score(&mut ctx.index);
    (Session::new(ctx), ())
}

const JOURNAL: &str = "\
2026-08-01 Rewe
    expenses:groceries        23.45 EUR
    liabilities:creditcard   -23.45 EUR

2026-08-05 Rewe
    expenses:groceries        12.00 EUR
    assets:bank:checking     -12.00 EUR

2026-08-06 Deutsche Bahn
    expenses:travel:train     49.00 EUR
    assets:bank:checking     -49.00 EUR
";

fn type_in(s: &mut Session, text: &str) {
    s.draft.set_buffer(text);
}

#[test]
fn typed_amounts_are_restyled_to_the_declared_style() {
    let src = "commodity 1_000.00 EUR\n\n2026-08-01 Rewe\n    expenses:groceries   23.45 EUR\n    assets:bank         -23.45 EUR\n";
    let (mut s, _t) = session(src);
    s.submit(); // date
    type_in(&mut s, "Ikea");
    s.submit(); // description
    type_in(&mut s, "expenses:household");
    s.submit();
    type_in(&mut s, "1234EUR");
    assert!(matches!(s.submit(), Submit::Advanced));
    // Grouped and spaced per the declaration, and filled out to its two
    // decimal places — the same form the generated balancing amount
    // would take, so the two sides of the transaction match.
    assert_eq!(s.draft.postings[0].amount, "1_234.00 EUR");
    // Undeclared commodities stay as typed.
    type_in(&mut s, "liabilities:cc");
    s.submit();
    type_in(&mut s, "-10USD");
    assert!(matches!(
        s.submit(),
        Submit::AdvancedWithNote(note) if note == "USD is a commodity new to this journal"
    ));
    assert_eq!(s.draft.postings[1].amount, "-10USD");
}

#[test]
fn declared_decimal_places_are_a_floor_not_a_ceiling() {
    // The `commodity` directive states the default precision, so an
    // entered amount is filled out to it — but hledger accepts more, and
    // rounding down would lose value, so extra places survive untouched.
    let src =
        "commodity 1_000.00 EUR\n\n2026-08-01 Rewe\n    a:b   1.00 EUR\n    c:d  -1.00 EUR\n";
    for (typed, written) in [
        ("4 EUR", "4.00 EUR"),
        ("4.0 EUR", "4.00 EUR"),
        ("4.00 EUR", "4.00 EUR"),
        // More precision than declared: kept exactly.
        ("4.000 EUR", "4.000 EUR"),
        ("4.001 EUR", "4.001 EUR"),
        // Undeclared commodity: nothing is assumed about it at all.
        ("4 USD", "4 USD"),
        // Unitless amounts have no style to follow.
        ("4", "4"),
        // Prices and assertions are amounts too, and take their own
        // commodity's declared places.
        ("4 EUR @ 1.1 EUR", "4.00 EUR @ 1.10 EUR"),
        ("4 EUR = 9 EUR", "4.00 EUR = 9.00 EUR"),
        // …but only where a style is declared.
        ("4 EUR @ 1.1 USD", "4.00 EUR @ 1.1 USD"),
    ] {
        let (mut s, _t) = session(src);
        s.submit();
        type_in(&mut s, "Ikea");
        s.submit();
        type_in(&mut s, "a:b");
        s.submit();
        type_in(&mut s, typed);
        s.submit();
        assert_eq!(s.draft.postings[0].amount, written, "typed {typed:?}");
    }
}

#[test]
fn padding_an_entered_amount_never_changes_its_value() {
    let src =
        "commodity 1_000.00 EUR\n\n2026-08-01 Rewe\n    a:b   1.00 EUR\n    c:d  -1.00 EUR\n";
    let (s, _t) = session(src);
    for typed in [
        "4 EUR",
        "4.0 EUR",
        "4.000 EUR",
        "4.001 EUR",
        "1234EUR",
        "4 EUR @ 1.1 EUR",
    ] {
        let written = restyle_entered(typed, &s.ctx.amount_ctx);
        assert_eq!(
            parse_amount(typed, &s.ctx.amount_ctx),
            parse_amount(&written, &s.ctx.amount_ctx),
            "{typed:?} -> {written:?} changed value"
        );
    }
}

#[test]
fn the_happy_path_enters_a_balanced_transaction() {
    let (mut s, _t) = session(JOURNAL);
    // Date empty, today ghost-suggested; Enter accepts it.
    assert_eq!(s.draft.buffer, "");
    assert_eq!(s.suggestion().as_deref(), Some("2026-08-10"));
    assert!(matches!(s.submit(), Submit::Advanced));
    assert_eq!(s.draft.field, Field::Description);

    type_in(&mut s, "Rewe");
    assert!(matches!(s.submit(), Submit::Advanced));
    // Template from the most recent Rewe: account 1 suggested, not
    // entered. Enter accepts it.
    assert_eq!(s.draft.field, Field::Account(0));
    assert_eq!(s.draft.buffer, "");
    assert_eq!(s.suggestion().as_deref(), Some("expenses:groceries"));
    assert!(matches!(s.submit(), Submit::Advanced));
    // Template amount ghost-suggested, never pre-filled.
    assert_eq!(s.draft.field, Field::Amount(0));
    assert_eq!(s.draft.buffer, "");
    assert_eq!(s.suggestion().as_deref(), Some("12.00 EUR"));
    type_in(&mut s, "18.20 EUR");
    assert!(matches!(s.submit(), Submit::Advanced));
    // Account 2 from template, likewise suggested.
    assert_eq!(s.draft.buffer, "");
    assert_eq!(s.suggestion().as_deref(), Some("assets:bank:checking"));
    assert!(matches!(s.submit(), Submit::Advanced));
    // Balancing amount suggested: negated running sum, not the template.
    // Enter accepts it, as at every prompt; the transaction then ends at
    // the account prompt after it, which suggests nothing.
    assert_eq!(s.draft.buffer, "");
    assert_eq!(s.suggestion().as_deref(), Some("-18.20 EUR"));
    let Submit::Done(txn) = s.submit() else {
        panic!("expected the transaction to finish");
    };
    assert_eq!(txn.date, d(2026, 8, 10));
    assert_eq!(txn.description, "Rewe");
    assert_eq!(
        format!("{:?}", txn.postings),
        format!("{:?}", vec![
            Posting::new("expenses:groceries", "18.20 EUR"),
            Posting::new("assets:bank:checking", "-18.20 EUR"),
        ])
    );
}

// ---- inline `; comment` ----

/// A comment is the tail of the line you are already typing, never a
/// prompt of its own — entering no comment costs nothing.
#[test]
fn a_trailing_semicolon_makes_the_rest_of_the_field_a_comment() {
    let (mut s, _t) = session(JOURNAL);
    assert!(matches!(s.submit(), Submit::Advanced)); // date

    type_in(&mut s, "Rewe ; trip: berlin");
    assert!(matches!(s.submit(), Submit::Advanced));
    // Straight to the first posting: no comment prompt in between.
    assert_eq!(s.draft.field, Field::Account(0));
    assert_eq!(s.draft.description, "Rewe");
    assert_eq!(s.draft.comment, "trip: berlin");

    assert!(matches!(s.submit(), Submit::Advanced)); // template account
    type_in(&mut s, "18.20 EUR ; receipt: yes");
    assert!(matches!(s.submit(), Submit::Advanced));
    assert_eq!(s.draft.field, Field::Account(1));
    assert_eq!(s.draft.postings[0].amount, "18.20 EUR");
    assert_eq!(s.draft.postings[0].comment, "receipt: yes");

    assert!(matches!(s.submit(), Submit::Advanced)); // template account 2
                                              // The empty amount still balances and finishes outright.
    let Submit::Done(txn) = s.submit() else {
        panic!("expected Done");
    };
    assert_eq!(txn.comment, "trip: berlin");
    assert_eq!(txn.postings[0].comment, "receipt: yes");
    assert_eq!(txn.postings[1].comment, "");
    assert_eq!(txn.postings[1].amount, "-18.20 EUR");
}

#[test]
fn entering_no_comment_costs_no_keystrokes() {
    // The whole point of the inline form: the field count is exactly what
    // it was before comments existed.
    let (mut s, _t) = session(JOURNAL);
    s.submit(); // date
    type_in(&mut s, "Rewe");
    s.submit(); // description
    assert_eq!(s.draft.field, Field::Account(0));
    s.submit(); // account 1 (template)
    assert_eq!(s.draft.field, Field::Amount(0));
    type_in(&mut s, "18.20 EUR");
    s.submit();
    assert_eq!(s.draft.field, Field::Account(1));
    s.submit(); // account 2 (template)
    assert!(matches!(s.submit(), Submit::Done(_)));
}

#[test]
fn a_comment_survives_navigating_away_and_back() {
    let (mut s, _t) = session(JOURNAL);
    s.submit();
    type_in(&mut s, "Rewe ; trip: berlin");
    s.submit();
    assert!(s.draft.nav_up());
    assert_eq!(s.draft.field, Field::Description);
    // Re-joined for editing, exactly as typed.
    assert_eq!(s.draft.buffer, "Rewe ; trip: berlin");
    // …and deleting it there clears it.
    type_in(&mut s, "Rewe");
    s.submit();
    assert_eq!(s.draft.comment, "");
}

#[test]
fn a_comment_typed_on_the_account_belongs_to_that_posting() {
    // A `;` in an account field would otherwise end up inside the account
    // name and produce a corrupt posting line.
    let (mut s, _t) = session(JOURNAL);
    s.submit();
    type_in(&mut s, "Rewe");
    s.submit();
    type_in(&mut s, "expenses:household ; gift: yes");
    s.submit();
    assert_eq!(s.draft.postings[0].account, "expenses:household");
    assert_eq!(s.draft.postings[0].comment, "gift: yes");
    // The amount field carries it, being the end of the line.
    assert_eq!(s.draft.buffer, "; gift: yes");
}

#[test]
fn comments_are_rendered_into_the_written_lines() {
    let txn = NewTransaction {
        date: d(2026, 8, 10),
        description: "Rewe".into(),
        comment: "trip: berlin".into(),
        postings: vec![
            Posting {
                account: "expenses:groceries".into(),
                amount: "18.20 EUR".into(),
                comment: "receipt: yes".into(),
            },
            Posting::new("assets:bank:checking", "-18.20 EUR"),
        ],
    };
    assert_eq!(
        txn.raw_lines(),
        vec![
            "2026-08-10 Rewe  ; trip: berlin".to_owned(),
            "    expenses:groceries  18.20 EUR  ; receipt: yes".to_owned(),
            "    assets:bank:checking  -18.20 EUR".to_owned(),
        ]
    );
}

#[test]
fn the_preview_shows_comments_as_they_will_be_written() {
    let (mut s, _t) = session(JOURNAL);
    s.submit();
    type_in(&mut s, "Rewe ; trip: berlin");
    s.submit();
    s.submit(); // template account
    type_in(&mut s, "18.20 EUR ; receipt: yes");
    let preview = s.preview_lines();
    assert_eq!(preview[0], "2026-08-10 Rewe  ; trip: berlin");
    assert!(preview[1].ends_with("  ; receipt: yes"), "{}", preview[1]);
}

// ---- tag completion inside comments ----

#[test]
fn tag_names_complete_inside_a_comment() {
    let src = "tag project\ntag receipt\n\n2026-08-01 x  ; client: acme\n    a:b   1 EUR\n    c:d  -1 EUR\n";
    let (mut s, _t) = session(src);
    s.submit();
    // Still on the description field — the `;` is what switches
    // completion over to tag names.
    type_in(&mut s, "x ; ");
    let all = s.candidates();
    assert!(all.contains(&"x ; project:".to_owned()), "{all:?}");
    assert!(all.contains(&"x ; client:".to_owned()), "{all:?}");

    type_in(&mut s, "x ; proj");
    assert_eq!(s.complete_buffer().as_deref(), Some("x ; project:"));
}

#[test]
fn a_tag_value_does_not_complete_but_the_next_name_does() {
    let src = "tag project\ntag receipt\n";
    let (mut s, _t) = session(src);
    s.submit();
    // Past the colon this is a value: free text, nothing to offer.
    type_in(&mut s, "x ; project: ac");
    assert!(s.candidates().is_empty());
    // After a comma a new tag name starts, and completion resumes.
    type_in(&mut s, "x ; project: acme, rec");
    assert_eq!(
        s.complete_buffer().as_deref(),
        Some("x ; project: acme, receipt:")
    );
}

#[test]
fn tag_names_are_read_out_of_posting_comments_too() {
    let src = "2026-08-01 x\n    a:b   1 EUR  ; receipt: 12\n    c:d  -1 EUR\n";
    let (s, _t) = session(src);
    assert_eq!(s.ctx.tag_pool(), vec!["receipt".to_owned()]);
}

// ---- the payee note and strict check ----

#[test]
fn a_description_new_to_the_journal_gets_a_note_with_a_near_miss() {
    // Motivation #1: hledger's `add` matches `bahn` against
    // `Deutsche Bahn` to pick defaults and then writes the literal
    // `bahn`, forking the payee silently.
    let (mut s, _t) = session(JOURNAL);
    s.submit();
    type_in(&mut s, "bahn");
    let Submit::AdvancedWithNote(note) = s.submit() else {
        panic!("expected a note for a description new to the journal");
    };
    assert!(note.contains("bahn is new to this journal"), "{note}");
    assert!(note.contains("did you mean Deutsche Bahn"), "{note}");
}

#[test]
fn a_description_already_in_the_journal_passes_quietly() {
    let (mut s, _t) = session(JOURNAL);
    s.submit();
    type_in(&mut s, "Rewe");
    assert!(matches!(s.submit(), Submit::Advanced));
}

#[test]
fn a_declared_payee_is_known_even_with_no_transactions() {
    // The point of the `payee` directive: known-good with no history, so
    // the near-miss hint can be trusted.
    let (mut s, _t) = session("payee Hofpfisterei\n");
    s.submit();
    type_in(&mut s, "Hofpfisterei");
    assert!(matches!(s.submit(), Submit::Advanced));
}

#[test]
fn strict_mode_asks_before_using_an_undeclared_payee() {
    let cfg = Config {
        strict: true,
        ..Config::default()
    };
    let (mut s, _t) = session_with("payee Deutsche Bahn\n", cfg);
    s.submit();
    type_in(&mut s, "bahn");
    let Submit::Confirm { question } = s.submit() else {
        panic!("expected Confirm");
    };
    assert!(question.contains("not a declared payee"), "{question}");
    assert!(question.contains("use it anyway"), "{question}");
    assert!(
        question.contains("did you mean Deutsche Bahn"),
        "{question}"
    );
    // Confirming proceeds, and the answer is not asked again this
    // session.
    assert!(matches!(s.submit_confirmed(), Submit::Advanced));
    assert!(s.payee_known("bahn"));
}

// ---- payee | note ----

#[test]
fn the_payee_check_tests_the_payee_half_not_the_whole_description() {
    // hledger's own behaviour, verified: `payee Deutsche Bahn` satisfies
    // `check payees` for `Deutsche Bahn | ticket`, and declaring the
    // whole string instead does *not*.
    let cfg = Config {
        strict: true,
        ..Config::default()
    };
    let (mut s, _t) = session_with("payee Deutsche Bahn\n", cfg.clone());
    s.submit();
    type_in(&mut s, "Deutsche Bahn | ticket to Koeln");
    assert!(matches!(s.submit(), Submit::Advanced));
    assert_eq!(s.draft.description, "Deutsche Bahn | ticket to Koeln");
    assert_eq!(s.draft.payee(), "Deutsche Bahn");
    assert_eq!(s.draft.note(), "ticket to Koeln");

    // The control: declaring the whole description leaves the payee
    // undeclared, exactly as hledger reports it.
    let (mut s, _t) = session_with("payee Deutsche Bahn | ticket to Koeln\n", cfg);
    s.submit();
    type_in(&mut s, "Deutsche Bahn | ticket to Koeln");
    let Submit::Confirm { question } = s.submit() else {
        panic!("expected Confirm");
    };
    assert!(
        question.starts_with("Deutsche Bahn is not a declared payee"),
        "{question}"
    );
}

#[test]
fn the_new_payee_note_names_the_payee_not_the_description() {
    let (mut s, _t) = session(JOURNAL);
    s.submit();
    type_in(&mut s, "Bahnhof Kiosk | coffee");
    let Submit::AdvancedWithNote(note) = s.submit() else {
        panic!("expected a note");
    };
    assert!(note.starts_with("Bahnhof Kiosk is new"), "{note}");
    // …and the near-miss answers with a payee, never a whole description.
    assert!(!note.contains('|'), "{note}");
}

#[test]
fn a_note_does_not_make_a_known_payee_look_new() {
    // `Rewe` is used in JOURNAL; adding a note must not turn it into an
    // unknown payee.
    let (mut s, _t) = session(JOURNAL);
    s.submit();
    type_in(&mut s, "Rewe | big shop");
    assert!(matches!(s.submit(), Submit::Advanced));
}

#[test]
fn the_template_and_account_pool_follow_the_payee_through_a_note() {
    let (mut s, _t) = session(JOURNAL);
    s.submit();
    // JOURNAL's most recent Rewe has no note; this one does, and the
    // template must still be found.
    type_in(&mut s, "Rewe | big shop");
    s.submit();
    assert_eq!(s.draft.field, Field::Account(0));
    // The template account is offered as a ghost, not typed into the
    // buffer.
    assert!(s.draft.buffer.is_empty());
    assert_eq!(s.suggestion().as_deref(), Some("expenses:groceries"));
    // Account ranking is conditioned on the payee.
    assert_eq!(s.account_pool()[0], "expenses:groceries");
}

#[test]
fn a_note_and_a_comment_coexist_on_one_description() {
    let (mut s, _t) = session(JOURNAL);
    s.submit();
    type_in(&mut s, "Rewe | big shop ; trip: berlin");
    s.submit();
    assert_eq!(s.draft.description, "Rewe | big shop");
    assert_eq!(s.draft.payee(), "Rewe");
    assert_eq!(s.draft.note(), "big shop");
    assert_eq!(s.draft.comment, "trip: berlin");
}

#[test]
fn declared_payees_join_the_description_completion_pool() {
    let src = "payee Hofpfisterei\n\n2026-08-01 Rewe\n    a:b   1 EUR\n    c:d  -1 EUR\n";
    let (mut s, _t) = session(src);
    s.submit();
    type_in(&mut s, "Hof");
    assert_eq!(s.complete_buffer().as_deref(), Some("Hofpfisterei"));
}

/// Enter the IVPN-shaped conversion transaction and finish it.
fn conversion_txn(config: Config) -> Submit {
    let (mut s, _t) = session_with(JOURNAL, config);
    s.submit(); // date
    type_in(&mut s, "IVPN");
    s.submit();
    type_in(&mut s, "expenses:subscriptions:services");
    s.submit();
    type_in(&mut s, "10 USD @@ 9.06 EUR");
    s.submit();
    type_in(&mut s, "assets:bank:checking");
    s.submit();
    type_in(&mut s, "-9.06 EUR");
    s.submit();
    // Empty account finishes: the postings already balance at cost.
    type_in(&mut s, "");
    s.submit()
}

#[test]
fn equity_conversions_are_off_by_default() {
    let Submit::Done(txn) = conversion_txn(Config::default()) else {
        panic!("expected Done");
    };
    assert_eq!(txn.postings.len(), 2);
}

#[test]
fn equity_conversions_follow_the_postings_they_convert() {
    let config = Config {
        equity_conversion: EquityConversion::On,
        ..Config::default()
    };
    let Submit::Done(txn) = conversion_txn(config) else {
        panic!("expected Done");
    };
    // One conversion: both postings belong to it, so its pair closes the
    // transaction whichever of them was typed first.
    assert_eq!(
        format!("{:?}", txn.postings),
        format!("{:?}", vec![
            Posting::new("expenses:subscriptions:services", "10 USD @@ 9.06 EUR"),
            Posting::new("assets:bank:checking", "-9.06 EUR"),
            Posting::new("equity:conversion", "-10 USD"),
            Posting::new("equity:conversion", "9.06 EUR"),
        ])
    );
}

/// Lay out `postings` as a finished transaction would be written.
fn laid_out(postings: &[(&str, &str)]) -> Vec<(String, String)> {
    let config = Config {
        equity_conversion: EquityConversion::On,
        ..Config::default()
    };
    let (mut s, _t) = session_with(JOURNAL, config);
    s.draft.postings = postings.iter().map(|(a, m)| Posting::new(a, m)).collect();
    s.with_equity_conversions()
        .into_iter()
        .map(|p| (p.account, p.amount))
        .collect()
}

#[test]
fn each_conversion_is_written_as_its_own_group() {
    // The yen posting was typed second but belongs to the second
    // conversion, so it is written beside it.
    assert_eq!(
        laid_out(&[
            ("assets:dollars", "$-135"),
            ("assets:yen", "¥-100"),
            ("assets:euros", "€100 @ $1.35"),
            ("assets:euros", "€1 @@ ¥100"),
        ]),
        vec![
            ("assets:dollars".to_owned(), "$-135".to_owned()),
            ("assets:euros".to_owned(), "€100 @ $1.35".to_owned()),
            ("equity:conversion".to_owned(), "€-100".to_owned()),
            ("equity:conversion".to_owned(), "$135".to_owned()),
            (";".to_owned(), String::new()),
            ("assets:yen".to_owned(), "¥-100".to_owned()),
            ("assets:euros".to_owned(), "€1 @@ ¥100".to_owned()),
            ("equity:conversion".to_owned(), "€-1".to_owned()),
            ("equity:conversion".to_owned(), "¥100".to_owned()),
        ]
    );
}

#[test]
fn a_posting_funding_two_conversions_is_written_last() {
    assert_eq!(
        laid_out(&[
            ("expenses:food", "€20 @ $1.10"),
            ("expenses:tips", "€2 @ $1.10"),
            ("assets:checking", "$-24.20"),
        ]),
        vec![
            ("expenses:food".to_owned(), "€20 @ $1.10".to_owned()),
            ("equity:conversion".to_owned(), "€-20".to_owned()),
            ("equity:conversion".to_owned(), "$22.00".to_owned()),
            (";".to_owned(), String::new()),
            ("expenses:tips".to_owned(), "€2 @ $1.10".to_owned()),
            ("equity:conversion".to_owned(), "€-2".to_owned()),
            ("equity:conversion".to_owned(), "$2.20".to_owned()),
            (";".to_owned(), String::new()),
            ("assets:checking".to_owned(), "$-24.20".to_owned()),
        ]
    );
}

#[test]
fn a_single_conversion_gets_no_separator() {
    let out = laid_out(&[
        ("assets:dollars", "$-135"),
        ("assets:euros", "€100 @ $1.35"),
    ]);
    assert!(out.iter().all(|(a, _)| a != ";"), "{out:?}");
}

#[test]
fn the_equity_conversion_account_is_configurable() {
    let config = Config {
        equity_conversion: EquityConversion::On,
        equity_conversion_account: "equity:trading".to_owned(),
        ..Config::default()
    };
    let Submit::Done(txn) = conversion_txn(config) else {
        panic!("expected Done");
    };
    assert!(txn.postings[2..]
        .iter()
        .all(|p| p.account == "equity:trading"));
}

#[test]
fn a_single_commodity_transaction_gets_no_equity_conversions() {
    let config = Config {
        equity_conversion: EquityConversion::On,
        ..Config::default()
    };
    let (mut s, _t) = session_with(JOURNAL, config);
    s.submit();
    type_in(&mut s, "Rewe");
    s.submit();
    s.submit(); // templated account
    type_in(&mut s, "18.20 EUR");
    s.submit();
    s.submit(); // templated account 2
    let Submit::Done(txn) = s.submit() else {
        panic!("expected Done");
    };
    assert_eq!(txn.postings.len(), 2);
}

#[test]
fn an_unbalanced_transaction_cannot_finish() {
    let (mut s, _t) = session(JOURNAL);
    s.submit();
    type_in(&mut s, "Test");
    s.submit();
    type_in(&mut s, "expenses:groceries");
    s.submit();
    type_in(&mut s, "10 EUR");
    s.submit();
    type_in(&mut s, "assets:bank:checking");
    s.submit();
    type_in(&mut s, "-9 EUR");
    s.submit();
    type_in(&mut s, "");
    let r = s.submit();
    let Submit::Invalid(msg) = r else {
        panic!("expected Invalid, got {r:?}");
    };
    assert!(msg.contains("balance"), "{msg}");
    assert!(msg.contains('1'), "{msg}");
}

#[test]
fn an_empty_amount_writes_the_balancing_amount_and_finishes() {
    let (mut s, _t) = session(JOURNAL);
    s.submit();
    type_in(&mut s, "Test");
    s.submit();
    type_in(&mut s, "expenses:groceries");
    s.submit();
    type_in(&mut s, "10 EUR");
    s.submit();
    type_in(&mut s, "assets:bank:checking");
    s.submit();
    // The balancing ghost is the one deliberate exception: accepting it
    // also ends the transaction, and the hint says so.
    type_in(&mut s, "");
    assert_eq!(s.suggestion().as_deref(), Some("-10 EUR"));
    assert!(s.balancing_finishes(1));
    assert_eq!(
        s.hint().as_deref(),
        Some("Enter writes it and finishes · Tab or → edits it")
    );
    let r = s.submit();
    let Submit::Done(txn) = r else {
        panic!("expected Done, got {r:?}");
    };
    // Never elided — the balancing amount is written out.
    assert_eq!(txn.postings[1].amount, "-10 EUR");
    assert_eq!(txn.postings.len(), 2);
}

#[test]
fn the_first_posting_requires_an_amount() {
    let (mut s, _t) = session(JOURNAL);
    s.submit();
    type_in(&mut s, "Test");
    s.submit();
    type_in(&mut s, "expenses:groceries");
    s.submit();
    // Nothing is suggested for the first amount of a transaction with
    // no template, and there is nothing to balance against either, so
    // Enter cannot invent one.
    type_in(&mut s, "");
    assert_eq!(s.suggestion(), None);
    assert!(!s.balancing_finishes(0));
    let r = s.submit();
    let Submit::Invalid(msg) = r else {
        panic!("expected Invalid, got {r:?}");
    };
    assert!(msg.contains("first posting"), "{msg}");
    assert_eq!(s.draft.field, Field::Amount(0));
}

#[test]
fn an_empty_amount_with_nothing_to_balance_is_rejected() {
    let (mut s, _t) = session(JOURNAL);
    s.submit();
    type_in(&mut s, "Test");
    s.submit();
    type_in(&mut s, "expenses:groceries");
    s.submit();
    type_in(&mut s, "10 EUR");
    s.submit();
    type_in(&mut s, "assets:bank:checking");
    s.submit();
    type_in(&mut s, "-10 EUR");
    s.submit();
    type_in(&mut s, "expenses:misc");
    s.submit();
    // Already balanced: nothing sensible to write here.
    type_in(&mut s, "");
    let r = s.submit();
    assert!(matches!(r, Submit::Invalid(_)), "{r:?}");
}

#[test]
fn q_at_the_date_prompt_quits() {
    let (mut s, _t) = session(JOURNAL);
    type_in(&mut s, "q");
    assert!(matches!(s.submit(), Submit::Quit));
    // Anywhere else `q` is just text — a description new to the journal,
    // so it is accepted with the passing note.
    type_in(&mut s, "today");
    s.submit();
    type_in(&mut s, "q");
    assert!(matches!(s.submit(), Submit::AdvancedWithNote(_)));
    assert_eq!(s.draft.description, "q");
}

#[test]
fn ctrl_w_on_accounts_deletes_one_segment_keeping_the_colon() {
    let mut d = Draft::new();
    d.set_buffer("expenses:travel:train");
    d.delete_word(true);
    assert_eq!(d.buffer, "expenses:travel:");
    // Right after a colon, the colon and its segment go together.
    d.delete_word(true);
    assert_eq!(d.buffer, "expenses:");
    d.delete_word(true);
    assert_eq!(d.buffer, "");
    // Non-account fields keep whitespace-word deletion.
    d.set_buffer("23.45 EUR");
    d.delete_word(false);
    assert_eq!(d.buffer, "23.45 ");
}

#[test]
fn bad_dates_and_bad_amounts_are_rejected_in_place() {
    let (mut s, _t) = session(JOURNAL);
    type_in(&mut s, "not a date");
    assert!(matches!(s.submit(), Submit::Invalid(_)));
    assert_eq!(s.draft.field, Field::Date);
    type_in(&mut s, "yesterday");
    s.submit();
    type_in(&mut s, "X");
    s.submit();
    type_in(&mut s, "expenses:groceries");
    s.submit();
    type_in(&mut s, "one hundred");
    assert!(matches!(s.submit(), Submit::Invalid(_)));
    assert_eq!(s.draft.field, Field::Amount(0));
}

#[test]
fn date_resolution_uses_smart_dates() {
    let (mut s, _t) = session(JOURNAL);
    type_in(&mut s, "5");
    s.submit();
    assert_eq!(s.draft.date, Some(d(2026, 8, 5)));
}

#[test]
fn suggestions_vanish_once_the_user_types() {
    let (mut s, _t) = session(JOURNAL);
    assert_eq!(s.suggestion().as_deref(), Some("2026-08-10"));
    s.draft.insert('5');
    assert_eq!(s.suggestion(), None);
}

#[test]
fn an_empty_date_re_accepts_the_date_shown_as_suggestion() {
    let (mut s, _t) = session(JOURNAL);
    type_in(&mut s, "5");
    s.submit();
    // Back at the date field, the accepted date is the suggestion, and
    // an empty Enter keeps it rather than resetting to today.
    s.draft.nav_up();
    s.draft.set_buffer("");
    assert_eq!(s.suggestion().as_deref(), Some("2026-08-05"));
    assert!(matches!(s.submit(), Submit::Advanced));
    assert_eq!(s.draft.date, Some(d(2026, 8, 5)));
}

#[test]
fn new_account_warn_policy_advances_with_note() {
    // Not strict (the default): the undeclared, never-used account is
    // accepted, with a passing note.
    let (mut s, _t) = session(JOURNAL);
    s.submit();
    type_in(&mut s, "X");
    s.submit();
    type_in(&mut s, "expenses:brandnew");
    let r = s.submit();
    assert!(matches!(r, Submit::AdvancedWithNote(_)), "{r:?}");
    assert_eq!(s.draft.field, Field::Amount(0));
}

#[test]
fn strict_mode_asks_before_using_undeclared_accounts() {
    let src = "payee X\naccount expenses:travel:train\naccount expenses:groceries\n";
    let cfg = Config {
        strict: true,
        ..Config::default()
    };
    let (mut s, _t) = session_with(src, cfg);
    s.submit();
    type_in(&mut s, "X");
    s.submit();
    type_in(&mut s, "exp:trav");
    let r = s.submit();
    let Submit::Confirm { question } = r else {
        panic!("expected Confirm, got {r:?}");
    };
    // The wording is about *using* the account — hledger-x declares
    // nothing — and carries the near-miss.
    assert!(question.contains("not a declared account"), "{question}");
    assert!(question.contains("use it anyway"), "{question}");
    assert!(
        question.contains("did you mean expenses:travel:train"),
        "{question}"
    );
    // Confirming proceeds.
    assert!(matches!(s.submit_confirmed(), Submit::Advanced));
}

#[test]
fn strict_mode_asks_before_using_undeclared_commodities() {
    let src = "payee X\naccount a:b\naccount c:d\ncommodity 1.00 EUR\n";
    let cfg = Config {
        strict: true,
        ..Config::default()
    };
    let (mut s, _t) = session_with(src, cfg);
    s.submit();
    type_in(&mut s, "X");
    s.submit();
    type_in(&mut s, "a:b");
    s.submit();
    type_in(&mut s, "5 EUX");
    let r = s.submit();
    let Submit::Confirm { question } = r else {
        panic!("expected Confirm, got {r:?}");
    };
    assert!(
        question.contains("EUX is not a declared commodity"),
        "{question}"
    );
    assert!(question.contains("did you mean EUR"), "{question}");
    assert!(matches!(s.submit_confirmed(), Submit::Advanced));
    // A declared commodity passes without a question…
    type_in(&mut s, "c:d");
    s.submit();
    type_in(&mut s, "-5 EUR");
    assert!(matches!(s.submit(), Submit::Advanced));
}

#[test]
fn strict_mode_checks_tail_commodities_too() {
    let src = "payee X\naccount a:b\naccount c:d\ncommodity 1.00 EUR\n";
    let cfg = Config {
        strict: true,
        ..Config::default()
    };
    let (mut s, _t) = session_with(src, cfg);
    s.submit();
    type_in(&mut s, "X");
    s.submit();
    type_in(&mut s, "a:b");
    s.submit();
    // Face commodity declared, price commodity not: the tail is
    // questioned.
    type_in(&mut s, "5 EUR @ 1.10 USD");
    let r = s.submit();
    let Submit::Confirm { question } = r else {
        panic!("expected Confirm, got {r:?}");
    };
    assert!(
        question.contains("USD is not a declared commodity"),
        "{question}"
    );
    assert!(matches!(s.submit_confirmed(), Submit::Advanced));
    // A fully declared assertion tail passes silently.
    s.draft.nav_up();
    type_in(&mut s, "5 EUR = 5 EUR");
    assert!(matches!(s.submit(), Submit::Advanced));
}

#[test]
fn strict_mode_never_questions_unitless_amounts() {
    let src = "payee X\naccount a:b\naccount c:d\ncommodity 1.00 EUR\n";
    let cfg = Config {
        strict: true,
        ..Config::default()
    };
    let (mut s, _t) = session_with(src, cfg);
    s.submit();
    type_in(&mut s, "X");
    s.submit();
    type_in(&mut s, "a:b");
    s.submit();
    type_in(&mut s, "5");
    assert!(matches!(s.submit(), Submit::Advanced));
}

#[test]
fn known_accounts_include_those_used_in_transactions() {
    let (mut s, _t) = session(JOURNAL);
    s.submit();
    type_in(&mut s, "X");
    s.submit();
    type_in(&mut s, "expenses:travel:train");
    assert!(matches!(s.submit(), Submit::Advanced));
}

#[test]
fn description_completion_is_frecency_ranked_and_conditioned() {
    let (mut s, _t) = session(JOURNAL);
    s.submit();
    // Substring matching on descriptions.
    type_in(&mut s, "ew");
    let c = s.candidates();
    assert_eq!(c, vec!["Rewe"]);
    type_in(&mut s, "Rewe");
    s.submit();
    // Account candidates conditioned on Rewe: groceries first.
    type_in(&mut s, "");
    let c = s.candidates();
    assert_eq!(c.first().map(String::as_str), Some("expenses:groceries"));
    // Segment-wise matching: `ex` and `tra` each match their own
    // segment, never across the colon.
    type_in(&mut s, "ex:tra");
    assert_eq!(s.candidates(), vec!["expenses:travel:train"]);
}

#[test]
fn tab_completes_a_unique_account_outright() {
    let (mut s, _t) = session(JOURNAL);
    s.submit();
    type_in(&mut s, "Rewe");
    s.submit();
    // Substring (the default): `roc` is unique mid-segment, so Tab
    // finishes it — no menu, no Enter to select.
    type_in(&mut s, "roc");
    assert_eq!(s.complete_buffer().as_deref(), Some("expenses:groceries"));
    // Ambiguous: nothing unanimous past `assets:bank:`, so Tab stops
    // there and the caller opens the menu.
    type_in(&mut s, "ban");
    assert_eq!(s.complete_buffer().as_deref(), Some("assets:bank:checking"));
    // No match leaves the buffer alone.
    type_in(&mut s, "zzz");
    assert_eq!(s.complete_buffer(), None);
}

#[test]
fn tab_completes_a_commodity_after_the_amount() {
    let (mut s, _t) = session(JOURNAL);
    s.submit();
    type_in(&mut s, "Rewe");
    s.submit();
    type_in(&mut s, "expenses:groceries");
    s.submit();
    type_in(&mut s, "5 E");
    assert_eq!(s.complete_buffer().as_deref(), Some("5 EUR"));
}

#[test]
fn an_account_entered_this_session_completes_in_the_next_transaction() {
    let (mut s, _t) = session(JOURNAL);
    s.submit();
    type_in(&mut s, "Cafe");
    s.submit();
    // Brand new to the journal — noted once, and accepted.
    type_in(&mut s, "expenses:coffee");
    assert!(matches!(s.submit(), Submit::AdvancedWithNote(_)));
    type_in(&mut s, "3.20 EUR");
    s.submit();
    type_in(&mut s, "assets:cash");
    s.submit();
    type_in(&mut s, "");
    let Submit::Done(txn) = s.submit() else {
        panic!("expected the transaction to finish");
    };
    s.complete(txn);

    // Next transaction: it completes like any other account…
    s.submit();
    type_in(&mut s, "Cafe");
    s.submit();
    type_in(&mut s, "coff");
    assert_eq!(s.candidates(), vec!["expenses:coffee"]);
    let completed = s.complete_buffer().unwrap();
    assert_eq!(completed, "expenses:coffee");
    // …and is no longer announced as new.
    type_in(&mut s, &completed);
    assert!(matches!(s.submit(), Submit::Advanced));
}

#[test]
fn an_account_from_an_earlier_posting_completes_in_the_same_transaction() {
    let (mut s, _t) = session(JOURNAL);
    s.submit();
    type_in(&mut s, "Cafe");
    s.submit();
    type_in(&mut s, "expenses:coffee");
    s.submit();
    type_in(&mut s, "3.20 EUR");
    s.submit();
    type_in(&mut s, "coff");
    assert_eq!(s.candidates(), vec!["expenses:coffee"]);
}

#[test]
fn strict_mode_asks_about_a_session_account_only_once() {
    let src = "payee X\naccount a:b\n";
    let cfg = Config {
        strict: true,
        ..Config::default()
    };
    let (mut s, _t) = session_with(src, cfg);
    s.submit();
    type_in(&mut s, "X");
    s.submit();
    type_in(&mut s, "expenses:coffee");
    assert!(matches!(s.submit(), Submit::Confirm { .. }));
    assert!(matches!(s.submit_confirmed(), Submit::Advanced));
    // Unitless: strict has no commodity to question here.
    type_in(&mut s, "3.20");
    assert!(matches!(s.submit(), Submit::Advanced));
    // Same undeclared account again: already settled this session.
    type_in(&mut s, "expenses:coffee");
    assert!(matches!(s.submit(), Submit::Advanced));
}

#[test]
fn undo_retracts_a_session_transaction_from_the_completion_pool() {
    let (mut s, _t) = session(JOURNAL);
    s.submit();
    type_in(&mut s, "Pharmacy");
    s.submit();
    type_in(&mut s, "expenses:health");
    s.submit();
    type_in(&mut s, "9.99 EUR");
    s.submit();
    type_in(&mut s, "assets:cash");
    s.submit();
    type_in(&mut s, "");
    let Submit::Done(txn) = s.submit() else {
        panic!("expected the transaction to finish");
    };
    s.complete(txn);
    assert!(s.ctx.index.descriptions.iter().any(|e| e.name == "Pharmacy"));
    s.undo();
    assert!(!s.ctx.index.descriptions.iter().any(|e| e.name == "Pharmacy"));
}

#[test]
fn declared_but_unused_accounts_complete_too() {
    let src = "account equity:conversion\n2026-08-01 x\n    a:b  1 EUR\n    c:d  -1 EUR\n";
    let (mut s, _t) = session(src);
    s.submit();
    type_in(&mut s, "X");
    s.submit();
    type_in(&mut s, "conv");
    assert_eq!(s.candidates(), vec!["equity:conversion"]);
}

#[test]
fn commodity_completion_completes_the_trailing_token() {
    let (mut s, _t) = session(JOURNAL);
    s.submit();
    type_in(&mut s, "X");
    s.submit();
    type_in(&mut s, "expenses:groceries");
    s.submit();
    type_in(&mut s, "12.50 E");
    let c = s.candidates();
    assert_eq!(c, vec!["12.50 EUR"]);
    // A bare number offers commodities to append.
    type_in(&mut s, "12.50");
    assert_eq!(s.candidates(), vec!["12.50 EUR"]);
}

#[test]
fn commodity_completion_reaches_the_second_commodity_of_a_tail() {
    let (mut s, _t) = session(JOURNAL);
    s.submit();
    type_in(&mut s, "X");
    s.submit();
    type_in(&mut s, "expenses:groceries");
    s.submit();
    // After the price number of @ / @@ and the assertion amount of
    // = / == / =* / ==*, the second commodity completes too.
    for op in ["@", "@@", "=", "==", "=*", "==*"] {
        type_in(&mut s, &format!("5 USD {op} 1.10 E"));
        assert_eq!(
            s.candidates(),
            vec![format!("5 USD {op} 1.10 EUR")],
            "completing after {op}"
        );
        type_in(&mut s, &format!("5 USD {op} 1.10"));
        assert_eq!(
            s.candidates(),
            vec![format!("5 USD {op} 1.10 EUR")],
            "appending after {op}"
        );
        // Right after the bare operator a number must come first.
        type_in(&mut s, &format!("5 USD {op}"));
        assert!(s.candidates().is_empty(), "no candidates after bare {op}");
    }
}

#[test]
fn navigation_moves_between_fields_and_reloads_text() {
    let (mut s, _t) = session(JOURNAL);
    s.submit(); // date
    type_in(&mut s, "Rewe");
    s.submit(); // description
    s.submit(); // account 1 (template)
    assert_eq!(s.draft.field, Field::Amount(0));
    // Up to account 1, edit, back down.
    assert!(s.draft.nav_up());
    assert_eq!(s.draft.field, Field::Account(0));
    assert_eq!(s.draft.buffer, "expenses:groceries");
    assert!(s.draft.nav_up());
    assert_eq!(s.draft.field, Field::Description);
    assert_eq!(s.draft.buffer, "Rewe");
    assert!(s.draft.nav_down());
    assert!(s.draft.nav_down());
    assert_eq!(s.draft.field, Field::Amount(0));
    // The frontier stops downward navigation.
    assert!(!s.draft.nav_down());
}

#[test]
fn preview_renders_at_file_widths_and_resolves_the_date() {
    let (mut s, _t) = session(JOURNAL);
    s.submit();
    type_in(&mut s, "Rewe");
    s.submit();
    s.submit(); // account from template
    type_in(&mut s, "9.99 EUR");
    s.submit();
    let lines = s.preview_lines();
    assert_eq!(lines[0], "2026-08-10 Rewe");
    // Account column padded to the file's widest account
    // (liabilities:creditcard, 22) and number right-aligned to the
    // file-wide numW (-23.45 → 6).
    assert_eq!(lines[1], "    expenses:groceries        9.99 EUR");
}

#[test]
fn preview_shows_unresolved_dates_with_a_question_mark() {
    let (mut s, _t) = session(JOURNAL);
    type_in(&mut s, "wat");
    assert_eq!(s.preview_lines()[0], "wat?");
    type_in(&mut s, "30");
    assert_eq!(s.preview_lines()[0], "2026-08-30");
}

#[test]
fn running_imbalance_reports_per_commodity() {
    let (mut s, _t) = session(JOURNAL);
    s.submit();
    type_in(&mut s, "X");
    s.submit();
    type_in(&mut s, "a:b");
    s.submit_confirmed();
    type_in(&mut s, "10 EUR");
    s.submit();
    assert_eq!(
        s.running_imbalance(),
        Some(vec![("EUR".to_owned(), dec("10"))])
    );
}

#[test]
fn undo_pops_the_last_completed_transaction() {
    let (mut s, _t) = session(JOURNAL);
    s.complete(NewTransaction {
        date: d(2026, 8, 10),
        description: "X".into(),
        comment: String::new(),
        postings: vec![Posting::new("a", "1 EUR"), Posting::new("b", "-1 EUR")],
    });
    type_in(&mut s, "u");
    assert!(matches!(s.submit(), Submit::Undo));
    assert!(s.undo().is_some());
    assert!(s.completed.is_empty());
    // Nothing left: `u` is now invalid.
    type_in(&mut s, "u");
    assert!(matches!(s.submit(), Submit::Invalid(_)));
}

#[test]
fn default_commodity_attaches_to_unitless_balancing_prefills() {
    let src = "2026-08-01 x\n    a:b  1 EUR\n    c:d  -1 EUR\n";
    let (mut s, _t) = session_with(src, config_with_default("1000.00 EUR"));
    s.submit();
    type_in(&mut s, "X");
    s.submit();
    type_in(&mut s, "a:b");
    s.submit();
    type_in(&mut s, "12.50"); // unitless
    s.submit();
    type_in(&mut s, "c:d");
    s.submit();
    // Balancing suggestion: unitless sum + the configured commodity.
    assert_eq!(s.suggestion().as_deref(), Some("-12.50 EUR"));
}

#[test]
fn default_commodity_is_written_into_bare_amounts() {
    let src = "2026-08-01 x\n    a:b  1 EUR\n    c:d  -1 EUR\n";
    let (mut s, _t) = session_with(src, config_with_default("1000.00 EUR"));
    s.submit();
    type_in(&mut s, "X");
    s.submit();
    type_in(&mut s, "a:b");
    s.submit();
    type_in(&mut s, "12.50"); // bare number
    s.submit();
    // The commodity is materialized in the built transaction…
    assert_eq!(s.draft.postings[0].amount, "12.50 EUR");
    type_in(&mut s, "c:d");
    s.submit();
    // …so the balancing suggestion matches.
    assert_eq!(s.suggestion().as_deref(), Some("-12.50 EUR"));
    let r = s.submit();
    let Submit::Done(txn) = r else {
        panic!("expected Done, got {r:?}");
    };
    assert_eq!(txn.postings[0].amount, "12.50 EUR");
    assert_eq!(txn.postings[1].amount, "-12.50 EUR");
}

#[test]
fn without_a_default_commodity_bare_amounts_stay_unitless() {
    let (mut s, _t) = session(JOURNAL);
    s.submit();
    type_in(&mut s, "X");
    s.submit();
    type_in(&mut s, "expenses:groceries");
    s.submit();
    type_in(&mut s, "12.50");
    s.submit();
    assert_eq!(s.draft.postings[0].amount, "12.50");
}

#[test]
fn default_commodity_follows_the_declared_style_side() {
    let src = "commodity $1000.00\n";
    let (mut s, _t) = session_with(src, config_with_default("$1000.00"));
    s.submit();
    type_in(&mut s, "X");
    s.submit();
    type_in(&mut s, "a:b");
    s.submit_confirmed();
    type_in(&mut s, "-12.50");
    s.submit();
    assert_eq!(s.draft.postings[0].amount, "$-12.50");
}

#[test]
fn amounts_with_tails_are_not_touched_by_the_default_commodity() {
    let src = "D 1000.00 EUR\n";
    let (mut s, _t) = session(src);
    s.submit();
    type_in(&mut s, "X");
    s.submit();
    type_in(&mut s, "a:b");
    s.submit_confirmed();
    type_in(&mut s, "5 USD @ 1.10");
    s.submit();
    assert_eq!(s.draft.postings[0].amount, "5 USD @ 1.10");
}

#[test]
fn a_suggested_account_is_a_ghost_not_buffer_text() {
    let (mut s, _t) = session(JOURNAL);
    s.submit();
    type_in(&mut s, "Rewe");
    s.submit();
    // The template's account is *offered*, not entered: the buffer is
    // empty and the account shows as a dim suggestion. Rendering it as
    // buffer text made it look committed while a keystroke wiped it.
    assert_eq!(s.draft.buffer, "");
    assert_eq!(s.suggestion().as_deref(), Some("expenses:groceries"));
    // Typing therefore just types — nothing to destroy.
    s.draft.insert('l');
    assert_eq!(s.draft.buffer, "l");
    assert_eq!(s.suggestion(), None);
}

#[test]
fn enter_accepts_the_suggested_account_and_tab_picks_it_up_to_edit() {
    let (mut s, _t) = session(JOURNAL);
    s.submit();
    type_in(&mut s, "Rewe");
    s.submit();
    // Enter on the empty prompt takes the suggestion, as it does at the
    // date and amount prompts.
    assert!(matches!(s.submit(), Submit::Advanced));
    assert_eq!(s.draft.postings[0].account, "expenses:groceries");
    assert_eq!(s.draft.field, Field::Amount(0));

    // Tab / → instead put it in the buffer for editing — which is what
    // the frontends do with `suggestion()`.
    let (mut s, _t) = session(JOURNAL);
    s.submit();
    type_in(&mut s, "Rewe");
    s.submit();
    let suggested = s.suggestion().unwrap();
    s.draft.set_buffer(&suggested);
    s.draft.backspace();
    assert_eq!(s.draft.buffer, "expenses:grocerie");
}

#[test]
fn dismissing_the_suggested_account_lets_enter_finish_the_transaction() {
    // Using fewer postings than the template needs a way to refuse the
    // suggestion: Ctrl-U in the terminal, `.` over a pipe.
    let (mut s, _t) = session(JOURNAL);
    s.submit();
    type_in(&mut s, "Rewe");
    s.submit();
    type_in(&mut s, "expenses:groceries");
    s.submit();
    type_in(&mut s, "18.20 EUR");
    s.submit();
    type_in(&mut s, "assets:bank:checking");
    s.submit();
    type_in(&mut s, "-18.20 EUR");
    s.submit();
    // Account 3: the template is exhausted, so nothing is suggested and
    // Enter finishes.
    assert_eq!(s.draft.field, Field::Account(2));
    assert_eq!(s.suggestion(), None);
    assert!(matches!(s.submit(), Submit::Done(_)));
}

#[test]
fn a_dismissed_suggestion_comes_back_on_the_next_field() {
    let (mut s, _t) = session(JOURNAL);
    s.submit();
    type_in(&mut s, "Rewe");
    s.submit();
    assert!(s.suggestion().is_some());
    s.draft.dismiss_suggestion();
    assert_eq!(s.suggestion(), None);
    // Dismissal is per field: Enter now finishes rather than accepting,
    // and moving on starts clean.
    type_in(&mut s, "expenses:groceries");
    s.submit();
    type_in(&mut s, "1 EUR");
    s.submit();
    assert_eq!(s.draft.field, Field::Account(1));
    assert_eq!(s.suggestion().as_deref(), Some("assets:bank:checking"));
}

#[test]
fn levenshtein_basics() {
    assert_eq!(levenshtein("", ""), 0);
    assert_eq!(levenshtein("abc", "abc"), 0);
    assert_eq!(levenshtein("abc", "abd"), 1);
    assert_eq!(levenshtein("abc", ""), 3);
    assert_eq!(levenshtein("kitten", "sitting"), 3);
}
