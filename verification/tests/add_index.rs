use hledger_x::add::index::{Entry, Index};
use hledger_x::add::parser::{Journal, RawPosting, Transaction};
use hledger_x::date::Date;

/// What the occurrences of an entry add up to. Scores are positive, so their
/// bits order as they do.
fn score(e: &mut Entry, half_life_days: f64) {
    let total: f64 = e
        .ages
        .iter()
        .map(|age| 0.5_f64.powf(*age as f64 / half_life_days))
        .sum();
    e.score = total.to_bits();
}

fn scored(journal: &Journal, today: Date, half_life_days: f64) -> Index {
    let mut idx = Index::build(journal, today);
    for entries in [
        &mut idx.descriptions,
        &mut idx.payees,
        &mut idx.accounts,
        &mut idx.by_payee,
        &mut idx.commodities,
    ] {
        for e in entries.iter_mut() {
            score(e, half_life_days);
        }
    }
    idx
}

fn d(y: i32, m: u32, day: u32) -> Date {
    Date::new(y, m, day).unwrap()
}

fn txn(date: Date, desc: &str, accounts: &[(&str, &str, Option<&str>)]) -> Transaction {
    Transaction {
        date,
        description: desc.into(),
        comment: None,
        postings: accounts
            .iter()
            .map(|(a, amt, c)| RawPosting {
                account: (*a).into(),
                amount: (*amt).into(),
                commodity: c.map(Into::into),
                comment: None,
            })
            .collect(),
        file: 0,
        line: 1,
        pos: 0,
    }
}

fn journal(txns: Vec<Transaction>) -> Journal {
    Journal {
        transactions: txns,
        ..Journal::default()
    }
}

fn today() -> Date {
    d(2026, 8, 10)
}

#[test]
fn scores_sum_decayed_occurrences() {
    // Two occurrences, 0 and 90 days old: score = 1.0 + 0.5.
    let j = journal(vec![
        txn(d(2026, 8, 10), "Rewe", &[("e:g", "1 EUR", Some("EUR"))]),
        txn(d(2026, 5, 12), "Rewe", &[("e:g", "1 EUR", Some("EUR"))]),
    ]);
    let idx = scored(&j, today(), 90.0);
    let e = idx.descriptions.iter().find(|e| e.name == "Rewe").unwrap();
    assert_eq!(e.count, 2);
    assert_eq!(e.last_date, d(2026, 8, 10));
    let score = f64::from_bits(e.score);
    assert!((score - 1.5).abs() < 1e-9, "score = {score}");
}

#[test]
fn frequency_beats_a_single_recent_occurrence() {
    // Five month-old "Edeka"s outrank one fresh "Rewe".
    let mut txns: Vec<Transaction> = (0..5)
        .map(|i| {
            txn(
                d(2026, 7, 10 + i),
                "Edeka",
                &[("e:g", "1 EUR", Some("EUR"))],
            )
        })
        .collect();
    txns.push(txn(d(2026, 8, 10), "Rewe", &[("e:g", "1 EUR", Some("EUR"))]));
    let idx = scored(&journal(txns), today(), 90.0);
    assert_eq!(idx.ranked_descriptions(), vec!["Edeka", "Rewe"]);
}

#[test]
fn recency_wins_between_equal_counts() {
    let j = journal(vec![
        txn(d(2025, 1, 1), "Old", &[("a", "1 EUR", None)]),
        txn(d(2026, 8, 1), "New", &[("a", "1 EUR", None)]),
    ]);
    let idx = scored(&j, today(), 90.0);
    assert_eq!(idx.ranked_descriptions(), vec!["New", "Old"]);
}

#[test]
fn template_is_most_recent_not_highest_scoring() {
    // "Rewe" appears many times long ago with one posting set, and once
    // recently with another. The template must be the recent one even
    // though the old pattern dominates the score.
    let mut txns: Vec<Transaction> = (0..10)
        .map(|i| {
            txn(
                d(2026, 1, 1 + i),
                "Rewe",
                &[("expenses:groceries", "1 EUR", Some("EUR"))],
            )
        })
        .collect();
    txns.push(txn(
        d(2026, 8, 9),
        "Rewe",
        &[("expenses:household", "5 EUR", Some("EUR"))],
    ));
    let j = journal(txns);
    let idx = scored(&j, today(), 90.0);
    let tpl = idx.template(&j, "Rewe").unwrap();
    assert_eq!(tpl.postings[0].account, "expenses:household");
}

#[test]
fn template_ties_on_date_go_to_the_later_occurrence() {
    let j = journal(vec![
        txn(d(2026, 8, 9), "Rewe", &[("first", "1 EUR", None)]),
        txn(d(2026, 8, 9), "Rewe", &[("second", "1 EUR", None)]),
    ]);
    let idx = scored(&j, today(), 90.0);
    assert_eq!(
        idx.template(&j, "Rewe").unwrap().postings[0].account,
        "second"
    );
}

#[test]
fn accounts_conditioned_on_description_rank_first() {
    let j = journal(vec![
        // Dominant account overall.
        txn(d(2026, 8, 1), "Salary", &[("assets:bank", "1 EUR", None)]),
        txn(d(2026, 8, 2), "Salary", &[("assets:bank", "1 EUR", None)]),
        txn(d(2026, 8, 3), "Salary", &[("assets:bank", "1 EUR", None)]),
        // At Rewe, groceries is what matters.
        txn(
            d(2026, 8, 5),
            "Rewe",
            &[
                ("expenses:groceries", "1 EUR", None),
                ("liabilities:cc", "-1 EUR", None),
            ],
        ),
    ]);
    let idx = scored(&j, today(), 90.0);
    let ranked = idx.ranked_accounts(Some("Rewe"));
    assert_eq!(ranked[0], "expenses:groceries");
    assert_eq!(ranked[1], "liabilities:cc");
    // The unconditioned pool follows, without duplicates.
    assert_eq!(ranked[2], "assets:bank");
    assert_eq!(ranked.len(), 3);

    // Unconditioned: the dominant account leads.
    assert_eq!(idx.ranked_accounts(None)[0], "assets:bank");
}

#[test]
fn commodities_are_indexed_from_posting_tokens() {
    let j = journal(vec![
        txn(d(2026, 8, 1), "x", &[("a", "1 EUR", Some("EUR"))]),
        txn(d(2026, 8, 2), "y", &[("a", "1 USD", Some("USD"))]),
        txn(d(2026, 8, 3), "z", &[("a", "1 EUR", Some("EUR"))]),
    ]);
    let idx = scored(&j, today(), 90.0);
    assert_eq!(idx.ranked_commodities(), vec!["EUR", "USD"]);
}

#[test]
fn empty_descriptions_index_nothing_but_accounts_still_count() {
    let j = journal(vec![txn(d(2026, 8, 1), "", &[("a", "1 EUR", None)])]);
    let idx = scored(&j, today(), 90.0);
    assert!(idx.descriptions.is_empty());
    assert!(idx.template(&j, "").is_none());
    assert_eq!(idx.accounts.len(), 1);
}

#[test]
fn a_future_occurrence_counts_as_todays() {
    let j = journal(vec![txn(d(2026, 9, 1), "Rewe", &[("a", "1 EUR", None)])]);
    let idx = Index::build(&j, today());
    assert_eq!(idx.descriptions[0].ages, vec![0]);
    let j = journal(vec![txn(d(2026, 7, 10), "Rewe", &[("a", "1 EUR", None)])]);
    let idx = Index::build(&j, today());
    assert_eq!(idx.descriptions[0].ages, vec![31]);
}

#[test]
fn a_session_transaction_is_one_more_occurrence() {
    let j = journal(vec![txn(d(2026, 8, 1), "Rewe | milk", &[("a", "1 EUR", None)])]);
    let mut idx = Index::build(&j, today());
    idx.bump_session(
        d(2026, 8, 10),
        "Rewe | bread",
        &[("b".to_owned(), Some("EUR".to_owned()))],
        today(),
    );
    assert_eq!(idx.ranked_payees(), vec!["Rewe"]);
    assert_eq!(idx.payees[0].count, 2);
    assert_eq!(idx.descriptions.len(), 2);
    assert_eq!(idx.ranked_accounts(Some("Rewe")).len(), 2);
    assert_eq!(idx.ranked_commodities(), vec!["EUR"]);
}
