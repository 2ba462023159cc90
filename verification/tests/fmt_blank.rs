use hledger_x::fmt::blank::normalize;

/// Normalize a `\n`-joined fixture, for readable expectations.
fn norm(s: &str) -> String {
    let ls: Vec<&str> = s.split('\n').collect();
    normalize(&ls).join("\n")
}

#[test]
fn a_run_of_blanks_between_transactions_collapses_to_one() {
    assert_eq!(
        norm("2025-01-01 a\n    e:x  1\n\n\n\n2025-01-02 b\n    e:x  2"),
        "2025-01-01 a\n    e:x  1\n\n2025-01-02 b\n    e:x  2"
    );
}

#[test]
fn dense_transactions_gain_a_blank_line() {
    assert_eq!(
        norm("2025-01-01 a\n    e:x  1\n2025-01-02 b\n    e:x  2"),
        "2025-01-01 a\n    e:x  1\n\n2025-01-02 b\n    e:x  2"
    );
}

#[test]
fn leading_and_trailing_blanks_are_dropped() {
    assert_eq!(
        norm("\n\n2025-01-01 a\n    e:x  1\n\n\n"),
        "2025-01-01 a\n    e:x  1"
    );
    assert_eq!(norm(""), "");
    assert_eq!(norm("\n\n"), "");
}

#[test]
fn a_blank_never_lands_inside_a_transaction() {
    // The header and its postings are one block, so no rule can separate
    // them; the blank line inside the posting run is not restored either.
    assert_eq!(
        norm("2025-01-01 a\n    e:x  1\n\n    a:b  -1"),
        "2025-01-01 a\n    e:x  1\n\n    a:b  -1"
    );
}

#[test]
fn consecutive_directives_stay_dense() {
    assert_eq!(
        norm("account a:b\naccount e:x\nP 2025-01-01 USD 1 EUR\ninclude other.j"),
        "account a:b\naccount e:x\nP 2025-01-01 USD 1 EUR\ninclude other.j"
    );
}

#[test]
fn a_blank_between_directives_is_preserved_but_collapsed() {
    assert_eq!(
        norm("account a:b\n\n\naccount e:x"),
        "account a:b\n\naccount e:x"
    );
}

#[test]
fn a_directive_abutting_a_transaction_gains_a_blank() {
    assert_eq!(
        norm("commodity USD\n    format 1,000.00 USD\n2025-01-01 a\n    e:x  1\nP 2025-06-01 USD 1 EUR"),
        "commodity USD\n    format 1,000.00 USD\n\n2025-01-01 a\n    e:x  1\n\nP 2025-06-01 USD 1 EUR"
    );
}

#[test]
fn a_comment_heading_a_transaction_stays_glued_to_it() {
    assert_eq!(
        norm("2025-01-01 a\n    e:x  1\n; note about b\n2025-01-02 b\n    e:x  2"),
        "2025-01-01 a\n    e:x  1\n\n; note about b\n2025-01-02 b\n    e:x  2"
    );
}

#[test]
fn a_comment_trailing_a_transaction_is_detached() {
    // Comments attach downward, so this one heads nothing and is pushed
    // away from the transaction above it.
    assert_eq!(
        norm("2025-01-01 a\n    e:x  1\n; trailing note"),
        "2025-01-01 a\n    e:x  1\n\n; trailing note"
    );
}

#[test]
fn a_standalone_comment_block_keeps_its_separation() {
    assert_eq!(
        norm("; section header\n\naccount a:b"),
        "; section header\n\naccount a:b"
    );
    assert_eq!(norm("; a comment\naccount a:b"), "; a comment\naccount a:b");
}

#[test]
fn a_comment_heading_a_directive_travels_with_it() {
    assert_eq!(
        norm("2025-01-01 a\n    e:x  1\n; about the price\nP 2025-06-01 USD 1 EUR"),
        "2025-01-01 a\n    e:x  1\n\n; about the price\nP 2025-06-01 USD 1 EUR"
    );
}

#[test]
fn an_orphan_indented_run_is_a_block_of_its_own() {
    assert_eq!(
        norm("    stray line\n2025-01-01 a\n    e:x  1"),
        "    stray line\n\n2025-01-01 a\n    e:x  1"
    );
}

#[test]
fn a_comment_block_is_opaque() {
    // Interior blank lines survive; the block gets one blank line on each
    // side because a transaction is involved.
    assert_eq!(
        norm("2025-01-01 a\n    e:x  1\ncomment\nprose\n\n\nmore prose\nend comment\n2025-01-02 b\n    e:x  2"),
        "2025-01-01 a\n    e:x  1\n\ncomment\nprose\n\n\nmore prose\nend comment\n\n2025-01-02 b\n    e:x  2"
    );
}

#[test]
fn an_unterminated_comment_block_swallows_the_rest_of_the_file() {
    // hledger accepts this and treats everything after `comment` as
    // prose; so must we, trailing blank lines and all.
    assert_eq!(
        norm("2025-01-01 a\n    e:x  1\n\ncomment\nprose\n\n2025-01-02 not a transaction\n\n"),
        "2025-01-01 a\n    e:x  1\n\ncomment\nprose\n\n2025-01-02 not a transaction\n\n"
    );
}

#[test]
fn an_indented_end_comment_does_not_close_the_block() {
    assert_eq!(
        norm("comment\n  end comment\n\n2025-01-01 a\n    e:x  1"),
        "comment\n  end comment\n\n2025-01-01 a\n    e:x  1"
    );
}

#[test]
fn normalization_is_idempotent() {
    for case in [
        "2025-01-01 a\n    e:x  1\n2025-01-02 b\n    e:x  2",
        "\n\n; head\n2025-01-01 a\n    e:x  1\n\n\naccount a:b\naccount e:x\n\n",
        "; only a comment",
        "2025-01-01 a\n    e:x  1\ncomment\n\n\nprose\nend comment\naccount a:b",
        "comment\nunterminated\n\n",
        "",
    ] {
        let once = norm(case);
        assert_eq!(norm(&once), once, "not idempotent: {case:?}");
    }
}
