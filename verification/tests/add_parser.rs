use hledger_x::add::filemap::FileMap;
use hledger_x::add::integrate::TargetScopes;
use hledger_x::add::parser::{Journal, ParseError};
use hledger_x::add::walk::{is_pattern, IncludeTarget, Step, Walk};
use hledger_x::date::Date;

/// The journal that a set of files makes up, read from the one named first.
fn read_tree(files: &[(&str, &str)], main: &str) -> Result<Journal, ParseError> {
    let find = |name: &str| files.iter().find(|f| f.0 == name).map(|f| f.1);
    let year = chrono::Datelike::year(&chrono::Local::now().date_naive());
    let mut walk = Walk::new(year);
    let own = main.to_owned();
    let mut step = walk.begin(own.clone(), own.clone(), own, find(main).unwrap());
    loop {
        step = match step {
            Step::Continue => walk.step(),
            Step::Include { path, pattern } => {
                let full = match path.rfind('/') {
                    Some(i) => format!("{}/{}", &path[..i], pattern),
                    None => pattern,
                };
                let wanted = glob::Pattern::new(&full).unwrap();
                let mut names: Vec<&str> = files.iter().map(|f| f.0).collect();
                names.retain(|n| wanted.matches(n));
                names.sort_unstable();
                let mut targets = Vec::new();
                for n in names {
                    targets.push(IncludeTarget {
                        path: n.to_owned(),
                        shown: n.to_owned(),
                        canonical: n.to_owned(),
                        content: Ok(find(n).unwrap().to_owned()),
                    });
                }
                walk.answer(targets);
                walk.step()
            }
            Step::Cycle { shown } => return Err(ParseError::Cycle(shown)),
            Step::Done => return Ok(walk.finish()),
        };
    }
}

fn tree<'a>(files: &[(&'a str, &'a str)]) -> Vec<(&'a str, &'a str)> {
    files.to_vec()
}

fn parse(files: &[(&str, &str)], main: &str) -> Journal {
    read_tree(files, main).unwrap()
}

fn d(y: i32, m: u32, day: u32) -> Date {
    Date::new(y, m, day).unwrap()
}

#[test]
fn a_posting_status_flag_is_not_part_of_the_account_name() {
    // `* assets:bank` is assets:bank, marked cleared. Indexing the flag
    // as part of the name hid the account from completion and made
    // strict mode treat an account already in the journal as new.
    let t = tree(&[(
        "main.journal",
        "2026-01-01 x\n    * assets:bank  10 EUR\n    ! expenses:food  -10 EUR\n",
    )]);
    let j = parse(&t, "main.journal");
    let used: Vec<&str> = j
        .transactions
        .iter()
        .flat_map(|t| t.postings.iter().map(|p| p.account.as_str()))
        .collect();
    assert_eq!(used, vec!["assets:bank", "expenses:food"]);
}

#[test]
fn nothing_inside_a_comment_block_is_journal_syntax() {
    // hledger ignores all of this, including the `include`; so must we.
    let t = tree(&[(
        "main.journal",
        "account Assets:Real\n\
             comment\n\
             account Assets:Prose\n\
             commodity EUR\n\
             include missing.journal\n\
             2025-06-06 not a transaction\n\
                 Expenses:Prose  1 EUR\n\
             end comment\n\
             2025-01-01 real\n\
                 Assets:Real  1 EUR\n\
                 Expenses:Real\n",
    )]);
    let j = parse(&t, "main.journal");
    let accounts: Vec<&str> = j.accounts.iter().map(|a| a.name.as_str()).collect();
    assert_eq!(accounts, vec!["Assets:Real"]);
    assert!(j.commodities.is_empty());
    assert_eq!(j.transactions.len(), 1);
    assert_eq!(j.transactions[0].date, d(2025, 1, 1));
    assert_eq!(
        j.files.len(),
        1,
        "the include inside the block was followed"
    );
}

#[test]
fn an_unterminated_comment_block_is_opaque_to_end_of_file() {
    let t = tree(&[(
        "main.journal",
        "2025-01-01 real\n    a:b  1 EUR\n    c:d\n\ncomment\n2025-06-06 prose\n    e:f  1 EUR\n",
    )]);
    let j = parse(&t, "main.journal");
    assert_eq!(j.transactions.len(), 1);
}

#[test]
fn a_format_subdirective_supplies_the_commodity_sample() {
    let t = tree(&[(
        "main.journal",
        "commodity EUR\n    format 1.000,00 EUR\ncommodity USD\n",
    )]);
    let j = parse(&t, "main.journal");
    assert_eq!(j.commodities.len(), 2);
    assert_eq!(j.commodities[0].name, "EUR");
    assert_eq!(j.commodities[0].sample.as_deref(), Some("1.000,00 EUR"));
    assert_eq!(j.commodities[1].sample, None);
}

#[test]
fn inherited_styles_arrive_where_the_include_stands() {
    let t = tree(&[
        (
            "main.journal",
            "include early.journal\n2026-01-01 x\n    a  1 EUR\n\ninclude late.journal\n",
        ),
        ("early.journal", "commodity 1_000.00 EUR\n"),
        ("late.journal", "commodity 1.000,00 USD\n"),
    ]);
    let j = parse(&t, "main.journal");
    let inherited = j.inherited_styles(0);
    // Nothing precedes the main file, then one entry per include line.
    assert!(inherited[0].1.styles.is_empty());
    assert_eq!(inherited[1].0, 0); // `include early.journal`
    assert_eq!(inherited[1].1.styles.get("EUR").unwrap().group_sep, Some('_'));
    assert_eq!(inherited[2].0, 4); // `include late.journal`
    assert_eq!(inherited[2].1.styles.get("USD").unwrap().group_sep, Some('.'));
    // An included file inherits what precedes it and declares the rest
    // itself, so its own entry is empty.
    let late = j.file_index("late.journal").unwrap();
    assert_eq!(late, 2);
    assert_eq!(
        j.inherited_styles(late)[0].1.styles.get("EUR").unwrap().group_sep,
        Some('_')
    );
}

#[test]
fn amount_ctx_at_ignores_declarations_below_it() {
    let t = tree(&[(
        "main.journal",
        "2026-01-01 x\n    a  1 EUR\n\ncommodity 1_000.00 EUR\n",
    )]);
    let j = parse(&t, "main.journal");
    assert!(j.amount_ctx_at(1).styles.is_empty());
    assert_eq!(j.amount_ctx().styles.get("EUR").unwrap().group_sep, Some('_'));
}

#[test]
fn amount_ctx_collects_styles_with_hledger_precedence() {
    // D ranks below commodity, even when D comes later; the last
    // commodity declaration wins — both verified against hledger 1.99.
    let t = tree(&[
        (
            "main.journal",
            "include sub.journal\ncommodity 1_000.00 EUR\nD 1.000,00 EUR\n",
        ),
        (
            "sub.journal",
            "commodity 1,000.00 USD\ncommodity 1_000.00 USD\n",
        ),
    ]);
    let ctx = parse(&t, "main.journal").amount_ctx();
    assert_eq!(ctx.styles.get("EUR").unwrap().group_sep, Some('_'));
    assert_eq!(ctx.styles.get("USD").unwrap().group_sep, Some('_'));
    assert_eq!(ctx.decimal_mark, None);
}

#[test]
fn a_single_file_parses_transactions() {
    let t = tree(&[(
        "main.journal",
        "2026-01-05 Rewe\n    expenses:groceries    23.45 EUR\n    assets:bank  -23.45 EUR\n",
    )]);
    let j = parse(&t, "main.journal");
    assert_eq!(j.transactions.len(), 1);
    let txn = &j.transactions[0];
    assert_eq!(txn.date, d(2026, 1, 5));
    assert_eq!(txn.description, "Rewe");
    assert_eq!(txn.postings.len(), 2);
    assert_eq!(txn.postings[0].account, "expenses:groceries");
    assert_eq!(txn.postings[0].amount, "23.45 EUR");
    assert_eq!(txn.postings[0].commodity.as_deref(), Some("EUR"));
    assert_eq!(txn.line, 1);
}

#[test]
fn amounts_are_carried_as_raw_text() {
    // Underscore grouping and costs must survive verbatim — they are
    // never interpreted.
    let t = tree(&[(
        "main.journal",
        "2026-01-05 x\n    a:b    50_888.56 EUR @ 1.2 USD  ; note\n    c:d\n",
    )]);
    let j = parse(&t, "main.journal");
    let p = &j.transactions[0].postings[0];
    assert_eq!(p.amount, "50_888.56 EUR @ 1.2 USD");
    assert_eq!(p.commodity.as_deref(), Some("EUR"));
    // Bare posting: empty amount, no commodity.
    let bare = &j.transactions[0].postings[1];
    assert_eq!(bare.amount, "");
    assert_eq!(bare.commodity, None);
}

#[test]
fn status_markers_and_comments_are_stripped_from_descriptions() {
    let t = tree(&[(
        "main.journal",
        "2026-01-05 * Rewe  ; tag: x\n    a  1 EUR\n\n2026-01-06 ! Edeka\n    a  1 EUR\n",
    )]);
    let j = parse(&t, "main.journal");
    assert_eq!(j.transactions[0].description, "Rewe");
    assert_eq!(j.transactions[1].description, "Edeka");
}

#[test]
fn unparseable_dates_skip_the_transaction_with_a_warning() {
    let t = tree(&[(
        "main.journal",
        "2026-13-40 nonsense\n    a  1 EUR\n\n2026-01-05 good\n    a  1 EUR\n",
    )]);
    let j = parse(&t, "main.journal");
    assert_eq!(j.transactions.len(), 1);
    assert_eq!(j.transactions[0].description, "good");
    assert_eq!(j.warnings.len(), 1);
    assert!(j.warnings[0].contains("skipping"), "{}", j.warnings[0]);
}

#[test]
fn periodic_and_auto_transactions_are_not_transactions() {
    let t = tree(&[(
        "main.journal",
        "~ monthly\n    a  1 EUR\n\n= expenses:food\n    b  1 EUR\n",
    )]);
    let j = parse(&t, "main.journal");
    assert!(j.transactions.is_empty());
    assert!(j.warnings.is_empty());
}

#[test]
fn includes_resolve_relative_to_the_including_file() {
    let t = tree(&[
        ("main.journal", "include g/sub/mid.journal\n"),
        ("g/sub/mid.journal", "include deep/d.journal\n"),
        ("g/sub/deep/d.journal", "2026-01-05 deep\n    a  1 EUR\n"),
    ]);
    let j = parse(&t, "main.journal");
    assert_eq!(j.transactions.len(), 1);
    assert_eq!(j.transactions[0].description, "deep");
    assert_eq!(j.files.len(), 3);
}

#[test]
fn include_globs_expand_in_sorted_order() {
    let t = tree(&[
        ("main.journal", "include sub/g*.journal\n"),
        ("sub/g2.journal", "2026-01-02 two\n"),
        ("sub/g1.journal", "2026-01-01 one\n"),
    ]);
    let j = parse(&t, "main.journal");
    let descs: Vec<&str> = j
        .transactions
        .iter()
        .map(|t| t.description.as_str())
        .collect();
    assert_eq!(descs, vec!["one", "two"]);
}

#[test]
fn a_missing_include_warns_loudly_and_continues() {
    let t = tree(&[(
        "main.journal",
        "include nope.journal\n2026-01-05 x\n    a  1 EUR\n",
    )]);
    let j = parse(&t, "main.journal");
    assert_eq!(j.transactions.len(), 1);
    assert_eq!(j.warnings.len(), 1);
    assert!(j.warnings[0].contains("nope.journal"));
}

#[test]
fn an_include_cycle_is_a_fatal_error() {
    let t = tree(&[
        ("a.journal", "include b.journal\n"),
        ("b.journal", "include a.journal\n"),
    ]);
    let err = read_tree(&t, "a.journal").unwrap_err();
    assert!(matches!(err, ParseError::Cycle(_)));
}

#[test]
fn including_the_same_file_twice_is_also_a_cycle_error() {
    let t = tree(&[
        ("main.journal", "include x.journal\ninclude x.journal\n"),
        ("x.journal", "2026-01-01 x\n"),
    ]);
    let err = read_tree(&t, "main.journal").unwrap_err();
    assert!(matches!(err, ParseError::Cycle(_)));
}

#[test]
fn parse_state_propagates_into_includes_but_not_back_out() {
    // decimal-mark in an included file must NOT be in effect in the
    // parent afterwards; a parent's mark must be visible inside the
    // include.
    let t = tree(&[
        ("main.journal", "decimal-mark ,\ninclude sub.journal\n"),
        ("sub.journal", "include leaf.journal\n"),
        ("leaf.journal", ""),
        ("main2.journal", "include marked.journal\n"),
        ("marked.journal", "decimal-mark ,\n"),
    ]);
    let j = parse(&t, "main.journal");
    // Propagated down two levels.
    let leaf = j.file("leaf.journal").unwrap();
    assert_eq!(leaf.state_at_eof.decimal_mark, Some(','));

    let j2 = parse(&t, "main2.journal");
    // Not escaped back to the parent.
    let main2 = j2.file("main2.journal").unwrap();
    assert_eq!(main2.state_at_eof.decimal_mark, None);
    let marked = j2.file("marked.journal").unwrap();
    assert_eq!(marked.state_at_eof.decimal_mark, Some(','));
}

#[test]
fn default_commodity_is_parse_state() {
    let t = tree(&[("main.journal", "D 1000.00 EUR\n")]);
    let j = parse(&t, "main.journal");
    assert_eq!(
        j.files[0].state_at_eof.default_commodity.as_deref(),
        Some("1000.00 EUR")
    );
}

#[test]
fn declarations_escape_includes_and_carry_stream_positions() {
    // An account declared in an include is visible in the parent's later
    // content.
    let t = tree(&[
        (
            "main.journal",
            "include conf.journal\n2026-01-05 x\n    assets:bank  1 EUR\n",
        ),
        (
            "conf.journal",
            "account assets:bank\ncommodity 1_000.00 EUR\n",
        ),
    ]);
    let j = parse(&t, "main.journal");
    assert_eq!(j.accounts.len(), 1);
    assert_eq!(j.accounts[0].name, "assets:bank");
    assert_eq!(j.commodities.len(), 1);
    assert_eq!(j.commodities[0].name, "EUR");
    assert_eq!(j.commodities[0].sample.as_deref(), Some("1_000.00 EUR"));

    // The declaration (inside the include) precedes the main file's
    // eof position, so it is visible at an append to main.
    let main = j.file("main.journal").unwrap();
    assert!(j.accounts[0].pos < main.eof_pos);
    assert_eq!(j.accounts_visible_at(main.eof_pos), vec!["assets:bank"]);
}

#[test]
fn declarations_after_the_insertion_point_are_not_visible() {
    // An include *below* the insertion point carries declarations that
    // hledger will not accept for text appended above it. Append target here is sub.journal; the account declared later in
    // main must not count as visible there.
    let t = tree(&[
        (
            "main.journal",
            "include sub.journal\naccount declared:late\n",
        ),
        ("sub.journal", "2026-01-01 x\n"),
    ]);
    let j = parse(&t, "main.journal");
    let sub = j.file("sub.journal").unwrap();
    assert!(j.accounts_visible_at(sub.eof_pos).is_empty());
    let main = j.file("main.journal").unwrap();
    assert_eq!(j.accounts_visible_at(main.eof_pos), vec!["declared:late"]);
}

#[test]
fn account_directive_inline_comments_are_not_part_of_the_name() {
    let t = tree(&[(
        "main.journal",
        "account assets:dkb:giro  ; type: Asset\naccount equity:opening-closing-balances\n",
    )]);
    let j = parse(&t, "main.journal");
    let names: Vec<&str> = j.accounts.iter().map(|a| a.name.as_str()).collect();
    assert_eq!(
        names,
        vec!["assets:dkb:giro", "equity:opening-closing-balances"]
    );
}

#[test]
fn bare_commodity_directives_declare_without_a_style() {
    let t = tree(&[("main.journal", "commodity USD\n")]);
    let j = parse(&t, "main.journal");
    assert_eq!(j.commodities[0].name, "USD");
    assert_eq!(j.commodities[0].sample, None);
}

#[test]
fn attached_symbol_commodity_directives_keep_their_style() {
    let t = tree(&[("main.journal", "commodity $1000.00\n")]);
    let j = parse(&t, "main.journal");
    assert_eq!(j.commodities[0].name, "$");
    assert_eq!(j.commodities[0].sample.as_deref(), Some("$1000.00"));
}

#[test]
fn unknown_directives_are_ignored_silently() {
    let t = tree(&[(
        "main.journal",
        "P 2026-01-01 USD 0.9 EUR\nN EUR\nassert foo\n",
    )]);
    let j = parse(&t, "main.journal");
    assert!(j.warnings.is_empty());
    assert!(j.transactions.is_empty());
}

// ---- payee and tag declarations ----

#[test]
fn payee_and_tag_declarations_carry_stream_positions() {
    let t = tree(&[
        (
            "main.journal",
            "include conf.journal\npayee Rewe\ntag project\n",
        ),
        ("conf.journal", "payee Deutsche Bahn\ntag client\n"),
    ]);
    let j = parse(&t, "main.journal");
    let payees: Vec<&str> = j.payees.iter().map(|d| d.name.as_str()).collect();
    assert_eq!(payees, vec!["Deutsche Bahn", "Rewe"]);
    let tags: Vec<&str> = j.tags.iter().map(|d| d.name.as_str()).collect();
    assert_eq!(tags, vec!["client", "project"]);

    // Position-sensitive, exactly like `account`.
    let conf = j.file("conf.journal").unwrap();
    assert_eq!(j.payees_visible_at(conf.eof_pos), vec!["Deutsche Bahn"]);
    let main = j.file("main.journal").unwrap();
    assert_eq!(
        j.payees_visible_at(main.eof_pos),
        vec!["Deutsche Bahn", "Rewe"]
    );
}

#[test]
fn a_payee_name_may_contain_a_run_of_spaces() {
    // `directive_arg`'s 2-space annotation cut would truncate this.
    let t = tree(&[("main.journal", "payee Cafe  Central\n")]);
    assert_eq!(parse(&t, "main.journal").payees[0].name, "Cafe  Central");
}

// ---- Y / year ----

#[test]
fn the_year_directive_resolves_partial_dates() {
    let t = tree(&[(
        "main.journal",
        "Y 2019\n01-15 first\n    a  1 EUR\n\nY 2021\n03-03 second\n    a  1 EUR\n\n2024-06-06 full\n    a  1 EUR\n",
    )]);
    let j = parse(&t, "main.journal");
    let dates: Vec<Date> = j.transactions.iter().map(|t| t.date).collect();
    assert_eq!(dates, vec![d(2019, 1, 15), d(2021, 3, 3), d(2024, 6, 6)]);
    assert!(j.warnings.is_empty());
}

#[test]
fn the_long_year_spelling_works_too() {
    let t = tree(&[("main.journal", "year 2019\n01-15 x\n    a  1 EUR\n")]);
    assert_eq!(
        parse(&t, "main.journal").transactions[0].date,
        d(2019, 1, 15)
    );
}

#[test]
fn a_partial_date_without_a_year_directive_takes_the_current_year() {
    // A partial
    // date is always resolvable, so it never skips its transaction.
    let t = tree(&[("main.journal", "01-15 x\n    a  1 EUR\n")]);
    let j = parse(&t, "main.journal");
    let this_year = chrono::Datelike::year(&chrono::Local::now().date_naive());
    assert_eq!(j.transactions[0].date, d(this_year, 1, 15));
    assert!(j.warnings.is_empty());
}

#[test]
fn the_year_directive_is_parse_state_not_a_declaration() {
    // Inherited into includes, discarded on return.
    let t = tree(&[
        (
            "main.journal",
            "Y 2019\ninclude sub.journal\n02-20 parent-after\n    a  1 EUR\n",
        ),
        ("sub.journal", "01-15 in-include\n    a  1 EUR\n"),
        (
            "main2.journal",
            "include opener.journal\n02-20 after\n    a  1 EUR\n",
        ),
        ("opener.journal", "Y 2019\n01-15 inside\n    a  1 EUR\n"),
    ]);
    let j = parse(&t, "main.journal");
    assert_eq!(j.transactions[0].date, d(2019, 1, 15)); // into the include
    assert_eq!(j.transactions[1].date, d(2019, 2, 20)); // still after it

    let j2 = parse(&t, "main2.journal");
    let this_year = chrono::Datelike::year(&chrono::Local::now().date_naive());
    assert_eq!(j2.transactions[0].date, d(2019, 1, 15));
    assert_eq!(j2.transactions[1].date, d(this_year, 2, 20)); // discarded
}

// ---- apply account / alias resolution on read ----

#[test]
fn apply_account_resolves_posting_accounts() {
    let t = tree(&[(
        "main.journal",
        "apply account assets:bank\n2026-01-05 x\n    checking   1 EUR\n    savings   -1 EUR\n",
    )]);
    let j = parse(&t, "main.journal");
    let names: Vec<&str> = j.transactions[0]
        .postings
        .iter()
        .map(|p| p.account.as_str())
        .collect();
    assert_eq!(names, vec!["assets:bank:checking", "assets:bank:savings"]);
}

#[test]
fn apply_account_prefixes_account_declarations() {
    let t = tree(&[(
        "main.journal",
        "apply account assets\naccount checking\nend apply account\naccount cash\n",
    )]);
    let j = parse(&t, "main.journal");
    let names: Vec<&str> = j.accounts.iter().map(|a| a.name.as_str()).collect();
    assert_eq!(names, vec!["assets:checking", "cash"]);
}

#[test]
fn an_unclosed_apply_account_runs_to_end_of_file() {
    // Unclosed regions are legal, which is exactly what
    // an `append` insertion lands inside of.
    let t = tree(&[(
        "main.journal",
        "apply account a\n2026-01-05 x\n    q  1 EUR\n",
    )]);
    let j = parse(&t, "main.journal");
    assert_eq!(j.transactions[0].postings[0].account, "a:q");
    let main = j.file("main.journal").unwrap();
    assert!(main.state_at_eof.scope.is_active());
    assert_eq!(main.state_at_eof.scope.prefix().as_deref(), Some("a"));
}

#[test]
fn apply_account_is_discarded_when_an_include_returns() {
    let t = tree(&[
        (
            "main.journal",
            "include opener.journal\n2026-01-06 after\n    q  1 EUR\n",
        ),
        (
            "opener.journal",
            "apply account a\n2026-01-05 inside\n    q  1 EUR\n",
        ),
    ]);
    let j = parse(&t, "main.journal");
    assert_eq!(j.transactions[0].postings[0].account, "a:q");
    assert_eq!(j.transactions[1].postings[0].account, "q");
}

#[test]
fn aliases_resolve_and_end_aliases_stops_them() {
    let t = tree(&[(
        "main.journal",
        "alias bank=assets:checking\n2026-01-05 x\n    bank      1 EUR\n    bank:sub  1 EUR\n\nend aliases\n\n2026-01-06 y\n    bank  1 EUR\n",
    )]);
    let j = parse(&t, "main.journal");
    let first: Vec<&str> = j.transactions[0]
        .postings
        .iter()
        .map(|p| p.account.as_str())
        .collect();
    assert_eq!(first, vec!["assets:checking", "assets:checking:sub"]);
    assert_eq!(j.transactions[1].postings[0].account, "bank");
}

#[test]
fn an_unparseable_alias_warns_and_is_skipped() {
    let t = tree(&[(
        "main.journal",
        "alias nonsense\n2026-01-05 x\n    q  1 EUR\n",
    )]);
    let j = parse(&t, "main.journal");
    assert_eq!(j.transactions[0].postings[0].account, "q");
    assert_eq!(j.warnings.len(), 1);
    assert!(j.warnings[0].contains("alias"), "{}", j.warnings[0]);
}

#[test]
fn state_checkpoints_answer_for_an_arbitrary_line() {
    // What `insertion = chronological` needs: a mid-file insertion can
    // land inside a *closed* region.
    let src = "2026-01-01 a\n    q  1 EUR\n\napply account P\n\n2026-01-05 b\n    q  1 EUR\n\nend apply account\n\n2026-01-10 c\n    q  1 EUR\n";
    let t = tree(&[("main.journal", src)]);
    let j = parse(&t, "main.journal");
    let f = j.file("main.journal").unwrap();
    // Line 0 is before the block, line 5 is inside it, line 10 after.
    assert!(!f.state_at(0).scope.is_active());
    assert_eq!(f.state_at(5).scope.prefix().as_deref(), Some("P"));
    assert!(!f.state_at(10).scope.is_active());
    assert!(!f.state_at_eof.scope.is_active());
}

#[test]
fn posting_and_header_comments_are_captured() {
    let t = tree(&[(
        "main.journal",
        "2026-01-05 Rewe  ; trip: berlin\n    a  1 EUR  ; note: x\n    b  -1 EUR\n",
    )]);
    let j = parse(&t, "main.journal");
    let txn = &j.transactions[0];
    assert_eq!(txn.description, "Rewe");
    assert_eq!(txn.comment.as_deref(), Some("; trip: berlin"));
    assert_eq!(txn.postings[0].comment.as_deref(), Some("; note: x"));
    assert_eq!(txn.postings[1].comment, None);
}

#[test]
fn account_and_commodity_subdirective_blocks_are_not_postings() {
    let t = tree(&[(
        "main.journal",
        "account assets:bank\n    note Checking\ncommodity EUR\n    format 1.000,00 EUR\n",
    )]);
    let j = parse(&t, "main.journal");
    assert!(j.transactions.is_empty());
    assert_eq!(j.accounts.len(), 1);
}

#[test]
fn file_map_records_transaction_spans_and_widths() {
    let src = "include conf.journal\n\n2026-01-05 a\n    aa:bb   1.00 EUR\n    cc:dd  -1.00 EUR\n\n2026-01-07 b\n    aa:bb   2.00 EUR\n";
    let map = FileMap::build(src);
    assert_eq!(map.transactions.len(), 2);
    assert_eq!(map.transactions[0].start, 2);
    assert_eq!(map.transactions[0].end, 5);
    assert_eq!(map.transactions[0].date, Some(d(2026, 1, 5)));
    assert_eq!(map.transactions[1].start, 6);
    assert_eq!(map.transactions[1].end, 8);
    assert!(map.formatted);
    assert_eq!(map.acc_w, 5);
    assert_eq!(map.num_w, 5);
    assert!(map.is_date_sorted());
}

#[test]
fn file_map_detects_unsorted_and_unformatted_files() {
    let unsorted = "2026-01-07 b\n    a  1 EUR\n\n2026-01-05 a\n    a  1 EUR\n";
    assert!(!FileMap::build(unsorted).is_date_sorted());
    let unformatted = "2026-01-05 a\n  a  1 EUR\n";
    assert!(!FileMap::build(unformatted).formatted);
}

#[test]
fn directive_keyword_must_be_followed_by_whitespace() {
    // `accountant` is not an `account` directive.
    let t = tree(&[("main.journal", "accountant fees\nDecimal x\n")]);
    let j = parse(&t, "main.journal");
    assert!(j.accounts.is_empty());
}

#[test]
fn the_write_target_is_a_file_of_the_tree() {
    let j = read_tree(
        &[
            ("main.journal", "commodity 1.00 EUR\ninclude sub.journal\n"),
            ("sub.journal", "apply account a\ncommodity $1.0\n"),
        ],
        "main.journal",
    )
    .unwrap();
    assert_eq!(j.write_target("main.journal", None).unwrap(), "main.journal");
    assert_eq!(
        j.write_target("main.journal", Some("sub.journal")).unwrap(),
        "sub.journal"
    );
    assert_eq!(j.write_target("main.journal", Some("other.journal")), None);
    // Only what precedes a file of the tree is inherited by it.
    let sub = j.styles_for("sub.journal");
    assert_eq!(sub.len(), 1);
    assert!(sub[0].1.styles.get("EUR").is_some() && sub[0].1.styles.get("$").is_none());
    let outside = j.styles_for("other.journal");
    assert_eq!(outside.len(), 1);
    assert!(outside[0].1.styles.get("$").is_some());
    assert!(TargetScopes::in_journal(&j, "sub.journal").any_active());
    assert!(!TargetScopes::in_journal(&j, "main.journal").any_active());
    assert!(!TargetScopes::in_journal(&j, "other.journal").any_active());
}

#[test]
fn a_pattern_is_told_from_a_path() {
    for p in ["*.journal", "a/?.journal", "[ab].journal", "x*"] {
        assert!(is_pattern(p), "{p}");
    }
    for p in ["", "a.journal", "../b/c.journal", "a]b", "{a,b}"] {
        assert!(!is_pattern(p), "{p}");
    }
}
