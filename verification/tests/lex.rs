use hledger_x::lex::{
    closes_comment_block, comment_block_len, is_blank, is_comment, is_indented_non_blank,
    is_number_like, is_rest_start, opens_comment_block, opens_rule, opens_txn, rstrip,
    split_account_amount, split_amount, split_comment,
};

#[test]
fn blankness() {
    assert!(is_blank(""));
    assert!(is_blank("   \t "));
    assert!(!is_blank("  x"));
}

#[test]
fn comments_are_column_zero_only() {
    assert!(is_comment("; hi"));
    assert!(is_comment("# hi"));
    assert!(is_comment("* hi"));
    assert!(!is_comment("    ; indented"));
    assert!(!is_comment(""));
    assert!(!is_comment("account Assets:Bank"));
}

#[test]
fn a_space_between_digit_groups_belongs_to_the_number() {
    // `1 234.00 USD` is one amount, not the number 1 with a commodity
    // `234.00`. Safe because an unquoted commodity symbol cannot contain
    // a digit, so nothing else can follow a number starting with one.
    assert_eq!(
        split_amount(&["1", "234.00", "USD"]),
        ("1 234.00".to_owned(), "USD".to_owned(), vec![])
    );
    assert_eq!(
        split_amount(&["-1", "234", "567.00", "USD"]),
        ("-1 234 567.00".to_owned(), "USD".to_owned(), vec![])
    );
    // The last group may carry an attached symbol.
    assert_eq!(
        split_amount(&["1", "234.00£"]),
        ("1 234.00£".to_owned(), String::new(), vec![])
    );
    // A unitless grouped number.
    assert_eq!(
        split_amount(&["1", "000"]),
        ("1 000".to_owned(), String::new(), vec![])
    );
    // The tail is still cut first, and grouping applies inside it too.
    assert_eq!(
        split_amount(&["1", "234", "USD", "@", "1", "500", "EUR"]),
        (
            "1 234".to_owned(),
            "USD".to_owned(),
            vec!["@", "1", "500", "EUR"]
        )
    );
}

#[test]
fn ordinary_amounts_are_unaffected_by_group_spaces() {
    assert_eq!(
        split_amount(&["100", "USD"]),
        ("100".to_owned(), "USD".to_owned(), vec![])
    );
    // Symbol-first: the first token is not a number, so nothing is joined.
    assert_eq!(
        split_amount(&["USD", "100"]),
        ("USD 100".to_owned(), String::new(), vec![])
    );
    assert_eq!(
        split_amount(&["$100"]),
        ("$100".to_owned(), String::new(), vec![])
    );
    assert_eq!(
        split_amount(&["100", "USD", "extra"]),
        ("100".to_owned(), "USD".to_owned(), vec!["extra"])
    );
}

#[test]
fn rules_are_recognized_but_are_not_transactions() {
    assert!(opens_rule("~ monthly  rent"));
    assert!(opens_rule("= expenses:food"));
    assert!(!opens_rule("2026-01-01 x"));
    assert!(!opens_rule("    indented"));
    assert!(!opens_rule("commodity EUR"));
    // And a rule still does not open a transaction.
    assert!(!opens_txn("~ monthly  rent"));
    assert!(!opens_txn("= expenses:food"));
}

#[test]
fn only_a_leading_digit_opens_a_transaction() {
    assert!(opens_txn("2025-01-01 payee"));
    assert!(opens_txn("2025/01/01"));
    assert!(!opens_txn(" 2025-01-01 indented"));
    assert!(!opens_txn("~ monthly"));
    assert!(!opens_txn("= expenses:food"));
    assert!(!opens_txn("P 2025-01-01 USD 1 EUR"));
    assert!(!opens_txn(""));
}

#[test]
fn comment_block_delimiters_stand_alone_at_column_zero() {
    assert!(opens_comment_block("comment"));
    assert!(opens_comment_block("comment \t"));
    assert!(!opens_comment_block("  comment"));
    assert!(!opens_comment_block("comment some words"));
    assert!(!opens_comment_block("Comment"));
    assert!(closes_comment_block("end comment  "));
    assert!(!closes_comment_block("  end comment"));
    assert!(!closes_comment_block("end comment now"));
}

#[test]
fn a_comment_block_runs_to_its_terminator_or_to_eof() {
    // Contents plus the `end comment` line.
    assert_eq!(comment_block_len(&["a", "b", "end comment", "c"]), 3);
    // Unterminated: everything that is left.
    assert_eq!(comment_block_len(&["a", "b"]), 2);
    assert_eq!(comment_block_len(&[]), 0);
    // An indented terminator does not terminate.
    assert_eq!(comment_block_len(&["a", "  end comment", "b"]), 3);
}

#[test]
fn indented_non_blank() {
    assert!(is_indented_non_blank("    Assets:Bank"));
    assert!(is_indented_non_blank("\tAssets:Bank"));
    assert!(!is_indented_non_blank("Assets:Bank"));
    assert!(!is_indented_non_blank("    "));
    assert!(!is_indented_non_blank(""));
}

#[test]
fn rstrip_drops_only_trailing_whitespace() {
    assert_eq!(rstrip("a b  \t "), "a b");
    assert_eq!(rstrip("  a"), "  a");
    assert_eq!(rstrip("   "), "");
    assert_eq!(rstrip(""), "");
}

#[test]
fn comment_split_is_at_the_first_semicolon() {
    assert_eq!(split_comment("a  ; one ; two"), ("a", Some("; one ; two")));
    assert_eq!(split_comment("a b"), ("a b", None));
    assert_eq!(split_comment("; whole line"), ("", Some("; whole line")));
}

#[test]
fn account_amount_separator_is_two_or_more_spaces() {
    assert_eq!(
        split_account_amount("Assets:Bank  100 USD"),
        ("Assets:Bank", "100 USD")
    );
    assert_eq!(
        split_account_amount("Assets:Bank Account   100.00 USD"),
        ("Assets:Bank Account", "100.00 USD")
    );
    // A single space is not a separator.
    assert_eq!(
        split_account_amount("Assets:Bank Account"),
        ("Assets:Bank Account", "")
    );
    // Tabs count, and mixed runs count.
    assert_eq!(
        split_account_amount("Assets:Checking\t\t100.00 USD"),
        ("Assets:Checking", "100.00 USD")
    );
    assert_eq!(
        split_account_amount("Assets:Checking \t100.00 USD"),
        ("Assets:Checking", "100.00 USD")
    );
    // A single tab is not a separator either.
    assert_eq!(
        split_account_amount("Assets:Checking\t100.00 USD"),
        ("Assets:Checking\t100.00 USD", "")
    );
}

#[test]
fn rest_start_tokens() {
    assert!(is_rest_start("@"));
    assert!(is_rest_start("@@"));
    assert!(is_rest_start("="));
    assert!(is_rest_start("=="));
    assert!(!is_rest_start("100"));
    assert!(!is_rest_start(""));
}

#[test]
fn number_like_needs_a_leading_sign_or_digit_and_a_digit() {
    assert!(is_number_like("100"));
    assert!(is_number_like("-7485978.18"));
    assert!(is_number_like("+1"));
    assert!(is_number_like(".5"));
    assert!(!is_number_like("$100"));
    assert!(!is_number_like("AMD"));
    assert!(!is_number_like("-"));
    assert!(!is_number_like(""));
}

#[test]
fn amount_splitting() {
    fn split(s: &str) -> (String, String, Vec<&str>) {
        let toks: Vec<&str> = s.split_whitespace().collect();
        split_amount(&toks)
    }

    // Empty.
    assert_eq!(split(""), (String::new(), String::new(), vec![]));
    // Bare number, no commodity.
    assert_eq!(split("100"), ("100".into(), String::new(), vec![]));
    // Number then commodity.
    assert_eq!(split("100.00 USD"), ("100.00".into(), "USD".into(), vec![]));
    // Number, commodity, cost tail.
    assert_eq!(
        split("100.00 EUR @ 1.20 USD"),
        ("100.00".into(), "EUR".into(), vec!["@", "1.20", "USD"])
    );
    // Assertion tail with no amount at all.
    assert_eq!(
        split("= 0 RSD"),
        (String::new(), String::new(), vec!["=", "0", "RSD"])
    );
    // Commodity on the left of the number: joined, no commodity column.
    assert_eq!(split("USD 100"), ("USD 100".into(), String::new(), vec![]));
    // Three non-number-leading tokens: all joined into the number field.
    assert_eq!(split("a b c"), ("a b c".into(), String::new(), vec![]));
    // Number first wins even with more tokens following.
    assert_eq!(
        split("100 USD extra"),
        ("100".into(), "USD".into(), vec!["extra"])
    );
}
