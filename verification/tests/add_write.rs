use hledger_x::add::integrate::{
    integrate, integrate_in, Integrated, Integration, TargetScopes,
};
use hledger_x::add::recovery::{parse_transactions, parse_transactions_in, record, Recovery};
use hledger_x::add::scope::{Origin, Scope};
use hledger_x::add::write::{Insertion, NewTransaction, Posting, WriteOptions};
use hledger_x::date::Date;

fn d(y: i32, m: u32, day: u32) -> Date {
    Date::new(y, m, day).unwrap()
}

fn txn(date: Date, desc: &str, postings: &[(&str, &str)]) -> NewTransaction {
    NewTransaction {
        date,
        description: desc.into(),
        comment: String::new(),
        postings: postings.iter().map(|(a, b)| Posting::new(a, b)).collect(),
    }
}

fn plain() -> WriteOptions {
    WriteOptions {
        format_file: true,
        sort: false,
        insertion: Insertion::Append,
    }
}

#[test]
fn appending_to_a_formatted_file_is_a_pure_append() {
    let src = "2026-01-05 a\n    aa:bb   1.00 EUR\n    cc:dd  -1.00 EUR\n";
    let new = txn(
        d(2026, 1, 6),
        "b",
        &[("aa:bb", "2.00 EUR"), ("cc:dd", "-2.00 EUR")],
    );
    let out = integrate(src, &[new], &plain());
    assert_eq!(
        out.contents,
        "2026-01-05 a\n    aa:bb   1.00 EUR\n    cc:dd  -1.00 EUR\n\n2026-01-06 b\n    aa:bb   2.00 EUR\n    cc:dd  -2.00 EUR\n"
    );
    assert!(out.warnings.is_empty());
}

#[test]
fn a_wider_transaction_reflows_the_whole_file_in_format_mode() {
    let src = "2026-01-05 a\n    aa:bb  1.00 EUR\n";
    let new = txn(
        d(2026, 1, 6),
        "b",
        &[("expenses:very:long", "-7485978.18 EUR")],
    );
    let out = integrate(src, &[new], &plain());
    assert_eq!(
        out.contents,
        "2026-01-05 a\n    aa:bb                      1.00 EUR\n\n2026-01-06 b\n    expenses:very:long  -7485978.18 EUR\n"
    );
}

#[test]
fn an_unformatted_file_warns_before_being_reformatted() {
    let src = "2026-01-05 a\n  aa:bb  1.00 EUR\n";
    let out = integrate(
        src,
        &[txn(d(2026, 1, 6), "b", &[("aa:bb", "1 EUR")])],
        &plain(),
    );
    assert!(out.warnings.iter().any(|w| w.contains("reformatted")));
}

#[test]
fn writing_into_an_empty_file_produces_no_leading_blank() {
    let out = integrate("", &[txn(d(2026, 1, 6), "b", &[("a:b", "1 EUR")])], &plain());
    assert_eq!(out.contents, "2026-01-06 b\n    a:b  1 EUR\n");
}

#[test]
fn amountless_postings_write_bare() {
    let out = integrate(
        "",
        &[txn(
            d(2026, 1, 6),
            "b",
            &[("a:b", "1 EUR"), ("c:d", "-1 EUR"), ("e:f", "")],
        )],
        &plain(),
    );
    assert_eq!(
        out.contents,
        "2026-01-06 b\n    a:b   1 EUR\n    c:d  -1 EUR\n    e:f\n"
    );
}

#[test]
fn chronological_insertion_lands_after_the_last_earlier_or_equal_date() {
    let src = "2026-01-05 a\n    x:y  1 EUR\n\n2026-01-10 c\n    x:y  1 EUR\n";
    let opts = WriteOptions {
        insertion: Insertion::Chronological,
        ..WriteOptions::default()
    };
    let out = integrate(src, &[txn(d(2026, 1, 7), "b", &[("x:y", "2 EUR")])], &opts);
    assert_eq!(
        out.contents,
        "2026-01-05 a\n    x:y  1 EUR\n\n2026-01-07 b\n    x:y  2 EUR\n\n2026-01-10 c\n    x:y  1 EUR\n"
    );
    assert!(out.warnings.is_empty());
}

#[test]
fn chronological_insertion_before_everything_when_earliest() {
    let src = "2026-01-05 a\n    x:y  1 EUR\n";
    let opts = WriteOptions {
        insertion: Insertion::Chronological,
        ..WriteOptions::default()
    };
    let out = integrate(
        src,
        &[txn(d(2026, 1, 1), "first", &[("x:y", "2 EUR")])],
        &opts,
    );
    assert_eq!(
        out.contents,
        "2026-01-01 first\n    x:y  2 EUR\n\n2026-01-05 a\n    x:y  1 EUR\n"
    );
}

#[test]
fn chronological_insertion_into_an_unsorted_file_warns_and_proceeds() {
    let src = "2026-01-10 late\n    x:y  1 EUR\n\n2026-01-05 early\n    x:y  1 EUR\n";
    let opts = WriteOptions {
        insertion: Insertion::Chronological,
        ..WriteOptions::default()
    };
    let out = integrate(
        src,
        &[txn(d(2026, 1, 7), "mid", &[("x:y", "2 EUR")])],
        &opts,
    );
    assert!(out.warnings.iter().any(|w| w.contains("not sorted")));
}

#[test]
fn sort_mode_places_the_new_transaction_by_date() {
    let src = "2026-01-05 a\n    x:y  1 EUR\n\n2026-01-10 c\n    x:y  1 EUR\n";
    let opts = WriteOptions {
        sort: true,
        ..WriteOptions::default()
    };
    let out = integrate(src, &[txn(d(2026, 1, 7), "b", &[("x:y", "2 EUR")])], &opts);
    assert_eq!(
        out.contents,
        "2026-01-05 a\n    x:y  1 EUR\n\n2026-01-07 b\n    x:y  2 EUR\n\n2026-01-10 c\n    x:y  1 EUR\n"
    );
}

#[test]
fn no_format_mode_leaves_existing_lines_untouched_and_aligns_only_ours() {
    // The existing file is formatted at narrow widths; our wider
    // transaction must not reflow it, but our own lines are aligned at
    // the would-be file-wide widths, and the stale-columns warning fires.
    let src = "2026-01-05 a\n    x:y  1 EUR\n";
    let opts = WriteOptions {
        format_file: false,
        ..WriteOptions::default()
    };
    let out = integrate(
        src,
        &[txn(
            d(2026, 1, 6),
            "b",
            &[("expenses:long", "-12.00 EUR"), ("x:y", "12.00 EUR")],
        )],
        &opts,
    );
    assert_eq!(
        out.contents,
        "2026-01-05 a\n    x:y  1 EUR\n\n2026-01-06 b\n    expenses:long  -12.00 EUR\n    x:y             12.00 EUR\n"
    );
    assert!(out.warnings.iter().any(|w| w.contains("stale")));
}

#[test]
fn no_format_mode_on_a_matching_width_file_is_a_fixed_point() {
    let src = "2026-01-05 a\n    expenses:long  -12.00 EUR\n    x:y             12.00 EUR\n";
    let opts = WriteOptions {
        format_file: false,
        ..WriteOptions::default()
    };
    let out = integrate(
        src,
        &[txn(
            d(2026, 1, 6),
            "b",
            &[("x:y", "1.00 EUR"), ("expenses:long", "-1.00 EUR")],
        )],
        &opts,
    );
    // A later fmt run must be a no-op.
    assert_eq!(hledger_x::fmt::format(&out.contents), out.contents);
    assert!(out.warnings.is_empty());
}

#[test]
fn multiple_transactions_integrate_in_order() {
    let out = integrate(
        "",
        &[
            txn(d(2026, 1, 6), "one", &[("a:b", "1 EUR")]),
            txn(d(2026, 1, 7), "two", &[("a:b", "2 EUR")]),
        ],
        &plain(),
    );
    assert_eq!(
        out.contents,
        "2026-01-06 one\n    a:b  1 EUR\n\n2026-01-07 two\n    a:b  2 EUR\n"
    );
}

// ---- writing under `apply account` / `alias` ----

/// A `TargetScopes` whose whole file carries `scope`.
fn everywhere(scope: Scope) -> TargetScopes {
    TargetScopes {
        checkpoints: vec![(0, scope.clone())],
        at_eof: scope,
    }
}

fn apply_scope(prefix: &str) -> Scope {
    let mut s = Scope::default();
    s.push_apply(prefix, Origin { file: 0, line: 1 });
    s
}

fn ready(i: Integration) -> Integrated {
    match i {
        Integration::Ready(out) => out,
        Integration::Refused(reasons) => {
            panic!("unexpectedly refused: {}", reasons.join("; "))
        }
    }
}

#[test]
fn chronological_insertion_of_out_of_order_transactions_still_sorts() {
    // The later-entered transaction is the earlier-dated one; it must end
    // up first. Placing every transaction against the *original* file and
    // shifting by a running total gets this wrong.
    let src = "2026-01-01 a\n    x:y  1 EUR\n\n2026-01-20 z\n    x:y  1 EUR\n";
    let opts = WriteOptions {
        insertion: Insertion::Chronological,
        ..WriteOptions::default()
    };
    let out = integrate(
        src,
        &[
            txn(d(2026, 1, 15), "later-entered", &[("x:y", "2 EUR")]),
            txn(d(2026, 1, 5), "earlier-dated", &[("x:y", "3 EUR")]),
        ],
        &opts,
    );
    let order: Vec<&str> = out
        .contents
        .lines()
        .filter(|l| !l.starts_with(char::is_whitespace) && !l.is_empty())
        .collect();
    assert_eq!(
        order,
        vec![
            "2026-01-01 a",
            "2026-01-05 earlier-dated",
            "2026-01-15 later-entered",
            "2026-01-20 z",
        ]
    );
}

#[test]
fn an_account_written_into_an_apply_region_loses_the_prefix() {
    // The whole point: hledger reads `checking` here as
    // `assets:bank:checking`, so writing the resolved name would produce
    // `assets:bank:assets:bank:checking`.
    let src = "apply account assets:bank\n\n2026-01-05 a\n    checking  1 EUR\n";
    let out = ready(integrate_in(
        src,
        &[txn(
            d(2026, 1, 6),
            "b",
            &[
                ("assets:bank:checking", "2 EUR"),
                ("assets:bank:savings", "-2 EUR"),
            ],
        )],
        &WriteOptions::default(),
        &[],
        &everywhere(apply_scope("assets:bank")),
    ));
    assert!(
        out.contents
            .contains("    checking   2 EUR\n    savings   -2 EUR"),
        "{}",
        out.contents
    );
    assert!(
        !out.contents.contains("assets:bank:checking  "),
        "{}",
        out.contents
    );
    assert!(
        out.warnings
            .iter()
            .any(|w| w.contains("apply account assets:bank")),
        "{:?}",
        out.warnings
    );
}

#[test]
fn an_unwritable_account_refuses_the_whole_write() {
    // `expenses:groceries` is outside the applied subtree, so no text at
    // this insertion point reads back as it.
    let result = integrate_in(
        "apply account assets:bank\n",
        &[txn(
            d(2026, 1, 6),
            "b",
            &[
                ("expenses:groceries", "2 EUR"),
                ("assets:bank:checking", "-2 EUR"),
            ],
        )],
        &WriteOptions::default(),
        &[],
        &everywhere(apply_scope("assets:bank")),
    );
    match result {
        Integration::Refused(reasons) => {
            assert_eq!(reasons.len(), 1);
            assert!(reasons[0].contains("expenses:groceries"), "{}", reasons[0]);
            assert!(
                reasons[0].contains("apply account assets:bank"),
                "{}",
                reasons[0]
            );
            assert!(reasons[0].contains("line 1"), "{}", reasons[0]);
        }
        Integration::Ready(out) => panic!("should have refused, wrote:\n{}", out.contents),
    }
}

#[test]
fn a_chronological_insertion_uses_the_scope_where_it_lands_not_at_eof() {
    // The region is *closed* before end of file, so an append would be
    // unaffected — but a chronological insertion lands inside it.
    let src = "2026-01-01 a\n    q  1 EUR\n\napply account P\n\n2026-01-05 b\n    q  1 EUR\n\nend apply account\n\n2026-01-10 c\n    q  1 EUR\n";
    let scopes = TargetScopes {
        checkpoints: vec![
            (0, Scope::default()),
            (4, apply_scope("P")),
            (9, Scope::default()),
        ],
        ..TargetScopes::default()
    };
    let out = ready(integrate_in(
        src,
        &[txn(
            d(2026, 1, 7),
            "mid",
            &[("P:q", "2 EUR"), ("P:r", "-2 EUR")],
        )],
        &WriteOptions {
            insertion: Insertion::Chronological,
            ..WriteOptions::default()
        },
        &[],
        &scopes,
    ));
    // Written unprefixed, because it lands inside the region.
    assert!(
        out.contents
            .contains("2026-01-07 mid\n    q   2 EUR\n    r  -2 EUR"),
        "{}",
        out.contents
    );
}

#[test]
fn appending_past_a_closed_region_is_unaffected() {
    let src = "apply account P\n\n2026-01-05 b\n    q  1 EUR\n\nend apply account\n";
    let scopes = TargetScopes {
        checkpoints: vec![
            (0, Scope::default()),
            (1, apply_scope("P")),
            (5, Scope::default()),
        ],
        ..TargetScopes::default()
    };
    let out = ready(integrate_in(
        src,
        &[txn(
            d(2026, 1, 6),
            "after",
            &[("full:name", "2 EUR"), ("other", "-2 EUR")],
        )],
        &WriteOptions::default(),
        &[],
        &scopes,
    ));
    assert!(
        out.contents.contains("    full:name   2 EUR"),
        "{}",
        out.contents
    );
    assert!(out.warnings.is_empty(), "{:?}", out.warnings);
}

#[test]
fn dates_are_always_written_in_full_even_under_a_year_directive() {
    let out = integrate(
        "Y 2026\n\n01-05 a\n    x:y  1 EUR\n",
        &[txn(d(2026, 1, 6), "b", &[("x:y", "1 EUR")])],
        &plain(),
    );
    assert!(out.contents.contains("2026-01-06 b"), "{}", out.contents);
}

#[test]
fn recovery_round_trips_transactions() {
    let t1 = txn(d(2026, 1, 6), "one", &[("a:b", "1 EUR"), ("c:d", "-1 EUR")]);
    let t2 = txn(d(2026, 1, 7), "two", &[("a:b", "2.50 EUR"), ("c:d", "")]);
    let mut file = String::new();
    file.push_str(&record(&t1));
    file.push_str(&record(&t2));
    let pending = parse_transactions(&file);
    assert_eq!(format!("{pending:?}"), format!("{:?}", vec![t1, t2]));
    assert!(parse_transactions("").is_empty());
}

#[test]
fn recovery_for_target_derives_a_safe_filename() {
    let rec = Recovery::for_target("/home/user/my journal.ledger", "/state");
    assert!(rec.path().starts_with("/state/"));
    let name = rec.path().rsplit('/').next().unwrap();
    assert!(name.starts_with("recovery-"));
    assert!(name.ends_with(".journal"));
    assert!(!name.contains(' '));
    assert!(!name.contains('/'));
    assert_eq!(name, "recovery-_home_user_my_journal.ledger.journal");
}

#[test]
fn comments_come_back_from_a_recovery_journal() {
    let mut t = txn(d(2026, 1, 6), "one", &[("a:b", "1 EUR @ 2 USD"), ("c:d", "")]);
    t.comment = "trip: berlin".to_owned();
    t.postings[0].comment = "note".to_owned();
    let text = record(&t);
    assert_eq!(
        text,
        "2026-01-06 one  ; trip: berlin\n    a:b  1 EUR @ 2 USD  ; note\n    c:d\n\n"
    );
    let back = parse_transactions_in(&text, 1999);
    assert_eq!(format!("{back:?}"), format!("{:?}", vec![t]));
}

#[test]
fn an_explicit_recovery_path_is_kept() {
    assert_eq!(Recovery::at("/tmp/x".to_owned()).path(), "/tmp/x");
    assert_eq!(Recovery::for_target("a", "").path(), "recovery-a.journal");
    assert_eq!(Recovery::for_target("a", "d/").path(), "d/recovery-a.journal");
}
