use hledger_x::fmt::posting::{parse_posting, render, Posting};

fn amount(
    account: &str,
    num: &str,
    commodity: &str,
    rest: &[&str],
    comment: Option<&str>,
) -> Posting {
    Posting::Amount {
        account: account.into(),
        num: num.into(),
        commodity: commodity.into(),
        rest: rest.iter().map(|s| (*s).to_owned()).collect(),
        comment: comment.map(Into::into),
    }
}

#[test]
fn indented_semicolon_line_is_a_comment_posting() {
    assert_eq!(
        parse_posting("      ; a note  "),
        Posting::Comment("; a note".into())
    );
}

#[test]
fn amount_less_posting_is_bare() {
    assert_eq!(
        parse_posting("    Expenses:Misc"),
        Posting::Bare("Expenses:Misc".into(), None)
    );
    assert_eq!(
        parse_posting("    Expenses:Misc  ; why"),
        Posting::Bare("Expenses:Misc".into(), Some("; why".into()))
    );
    // A single space inside the account name is not a separator.
    assert_eq!(
        parse_posting("    Assets:Bank Account"),
        Posting::Bare("Assets:Bank Account".into(), None)
    );
}

#[test]
fn amount_posting_splits_number_commodity_and_tail() {
    assert_eq!(
        parse_posting("    Assets:Bank  100 USD"),
        amount("Assets:Bank", "100", "USD", &[], None)
    );
    assert_eq!(
        parse_posting("    Expenses:Groceries:Weekly   100.00 EUR @ 1.20 USD"),
        amount(
            "Expenses:Groceries:Weekly",
            "100.00",
            "EUR",
            &["@", "1.20", "USD"],
            None
        )
    );
    assert_eq!(
        parse_posting("    Assets:Bank Account   100.00 USD = 100.00 USD  ; note here"),
        amount(
            "Assets:Bank Account",
            "100.00",
            "USD",
            &["=", "100.00", "USD"],
            Some("; note here")
        )
    );
    // Assertion with no amount in front of it.
    assert_eq!(
        parse_posting("    Assets:Cash   = 0 RSD"),
        amount("Assets:Cash", "", "", &["=", "0", "RSD"], None)
    );
}

#[test]
fn render_pads_account_then_right_aligns_the_number() {
    let p = amount("A:B", "10.00", "USD", &[], None);
    assert_eq!(render(5, 7, &p), "    A:B      10.00 USD");
}

#[test]
fn render_never_aligns_the_cost_tail() {
    let p = amount("A:B", "100.00", "EUR", &["@", "1.20", "USD"], None);
    assert_eq!(render(3, 6, &p), "    A:B  100.00 EUR @ 1.20 USD");
}

#[test]
fn render_reserves_the_columns_for_a_tail_only_posting() {
    // Number column blanked, plus a blank stand-in for the tail's
    // commodity, so `= 0 RSD` lines up as if a zero amount preceded it.
    let p = amount("Assets:Cash", "", "", &["=", "0", "RSD"], None);
    assert_eq!(render(11, 5, &p), "    Assets:Cash            = 0 RSD");
    // A tail with no commodity at all gets no phantom pad.
    let p = amount("Assets:Cash", "", "", &["=", "0"], None);
    assert_eq!(render(11, 5, &p), "    Assets:Cash        = 0");
}

#[test]
fn render_bare_and_comment_postings() {
    assert_eq!(
        render(20, 8, &Posting::Bare("Expenses:Misc".into(), None)),
        "    Expenses:Misc"
    );
    assert_eq!(
        render(
            20,
            8,
            &Posting::Bare("Expenses:Misc".into(), Some("; why".into()))
        ),
        "    Expenses:Misc  ; why"
    );
    assert_eq!(
        render(20, 8, &Posting::Comment("; note".into())),
        "    ; note"
    );
}

#[test]
fn render_does_not_truncate_when_wider_than_the_column() {
    let p = amount("Assets:Very:Long", "12345.67", "USD", &[], None);
    assert_eq!(render(3, 2, &p), "    Assets:Very:Long  12345.67 USD");
}

#[test]
fn render_uses_character_widths_not_bytes() {
    // "Ausgaben:Bücher" is 15 chars, 16 bytes; padding to 17 must add 2.
    let p = amount("Ausgaben:Bücher", "1", "EUR", &[], None);
    assert_eq!(render(17, 1, &p), "    Ausgaben:Bücher    1 EUR");
}

#[test]
fn inline_comments_are_normalized_to_two_spaces() {
    let p = parse_posting("    A:B  1 USD      ; spaced out");
    assert_eq!(render(3, 1, &p), "    A:B  1 USD  ; spaced out");
}
