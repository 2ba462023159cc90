use hledger_x::amount::AmountCtx;
use hledger_x::fmt::{
    format_opts_scanned, format_sorted, format_with, is_formatted, is_formatted_opts,
    is_formatted_with, lines, scan_ctx, unlines, Options,
};

#[test]
fn haskell_line_semantics() {
    assert_eq!(lines(""), Vec::<&str>::new());
    assert_eq!(lines("a\n"), vec!["a"]);
    assert_eq!(lines("a"), vec!["a"]);
    assert_eq!(lines("a\n\n"), vec!["a", ""]);
    assert_eq!(unlines(&[]), "");
    assert_eq!(unlines(&["a", "b"]), "a\nb\n");
}

#[test]
fn empty_input_yields_empty_output() {
    assert_eq!(hledger_x::fmt::format(""), "");
}

#[test]
fn a_missing_trailing_newline_is_added() {
    assert_eq!(hledger_x::fmt::format("2025-01-01 x"), "2025-01-01 x\n");
}

#[test]
fn whitespace_only_lines_are_blank_lines() {
    // Trailing blanks go entirely; an interior run collapses to one.
    assert_eq!(hledger_x::fmt::format("2025-01-01 x\n   \t \n\n"), "2025-01-01 x\n");
    assert_eq!(
        hledger_x::fmt::format("2025-01-01 x\n   \t \n\naccount a:b\n"),
        "2025-01-01 x\n\naccount a:b\n"
    );
}

#[test]
fn transactions_are_separated_by_exactly_one_blank_line() {
    let dense = "2025-01-01 a\n    e:x  1\n2025-01-02 b\n    e:x  2\n";
    let spaced = "2025-01-01 a\n    e:x  1\n\n\n2025-01-02 b\n    e:x  2\n";
    let want = "2025-01-01 a\n    e:x  1\n\n2025-01-02 b\n    e:x  2\n";
    assert_eq!(hledger_x::fmt::format(dense), want);
    assert_eq!(hledger_x::fmt::format(spaced), want);
}

#[test]
fn a_comment_block_passes_through_byte_for_byte() {
    // Everything inside is prose: the posting-looking lines keep their
    // sloppy indentation and spacing, the blank line survives, the
    // trailing whitespace on the delimiters survives, and the `commodity`
    // directive in there declares nothing.
    let src = "commodity USD\n    format 1,000.00 USD\n\ncomment  \n2025-01-01 not a transaction\n   e:x   1234USD  \n\ncommodity EUR\n    format 1.000,00 EUR\nend comment\t\n\n2025-02-02 real\n    e:x  1234EUR\n";
    let want = "commodity USD\n    format 1,000.00 USD\n\ncomment  \n2025-01-01 not a transaction\n   e:x   1234USD  \n\ncommodity EUR\n    format 1.000,00 EUR\nend comment\t\n\n2025-02-02 real\n    e:x  1234EUR\n";
    assert_eq!(hledger_x::fmt::format(src), want);
}

#[test]
fn an_unterminated_comment_block_is_opaque_to_eof() {
    let src = "2025-01-01 a\n    e:x  1 USD\n\ncomment\n2025-01-02 prose\n    sloppy   text\n";
    assert_eq!(hledger_x::fmt::format(src), src);
}

#[test]
fn a_comment_block_is_one_barrier_and_never_reordered() {
    let src = "comment\n2025-09-09 prose\nend comment\n\n2025-02-02 b\n    e:x  2 USD\n\n2025-01-01 a\n    e:x  1 USD\n";
    let want = "comment\n2025-09-09 prose\nend comment\n\n2025-01-01 a\n    e:x  1 USD\n\n2025-02-02 b\n    e:x  2 USD\n";
    assert_eq!(format_sorted(src), want);
}

#[test]
fn transaction_headers_lose_only_trailing_whitespace() {
    assert_eq!(hledger_x::fmt::format("2025-01-01   payee   \n"), "2025-01-01   payee\n");
}

#[test]
fn directives_and_price_lines_pass_through_verbatim() {
    let src = "# a comment  \ninclude other.journal  \nP 2025-01-01 USD   1.00 EUR  \n";
    assert_eq!(hledger_x::fmt::format(src), src);
}

#[test]
fn indented_sub_directives_are_left_alone() {
    let src = "account Assets:Bank\n    ; sub-directive comment\n    note Checking account\n";
    assert_eq!(hledger_x::fmt::format(src), src);
}

#[test]
fn widths_are_file_wide_not_per_transaction() {
    let src =
        "2025-01-01 a\n    A:B  1.00 USD\n\n2025-01-02 b\n    Expenses:Long  -7485978.18 USD\n";
    assert_eq!(
        hledger_x::fmt::format(src),
        "2025-01-01 a\n    A:B                   1.00 USD\n\n2025-01-02 b\n    Expenses:Long  -7485978.18 USD\n"
    );
}

#[test]
fn a_blank_line_ends_a_transaction_so_a_later_indented_run_is_not_postings() {
    let src = "2025-01-01 a\n    A:B  1 USD\n\n    stray indented line\n";
    assert_eq!(
        hledger_x::fmt::format(src),
        "2025-01-01 a\n    A:B  1 USD\n\n    stray indented line\n"
    );
}

#[test]
fn a_file_of_only_directives_is_unchanged() {
    let src = "account Assets:Bank\ncommodity USD\ninclude other.journal\nD 1000.00 USD\n";
    assert_eq!(hledger_x::fmt::format(src), src);
}

#[test]
fn a_price_only_file_is_unchanged() {
    let src = "P 2025-01-01 USD 1.00 EUR\nP 2025-01-02 USD 1.01 EUR\n";
    assert_eq!(hledger_x::fmt::format(src), src);
}

#[test]
fn commodity_on_the_left_is_not_split_into_number_and_commodity() {
    // `$100` is not number-like, so it stays one token in the number field
    // and is right-aligned as a whole.
    let src = "2025-01-01 x\n    A:B  $100\n    C:D  -$100\n";
    assert_eq!(
        hledger_x::fmt::format(src),
        "2025-01-01 x\n    A:B   $100\n    C:D  -$100\n"
    );
}

#[test]
fn accounts_containing_single_spaces_survive() {
    let src = "2025-01-01 x\n    Assets:Bank Account   100.00 USD\n";
    assert_eq!(
        hledger_x::fmt::format(src),
        "2025-01-01 x\n    Assets:Bank Account  100.00 USD\n"
    );
}

#[test]
fn tabs_are_separators_and_indentation() {
    let src = "2025-01-01 x\n\tA:B\t\t1 USD\n";
    assert_eq!(hledger_x::fmt::format(src), "2025-01-01 x\n    A:B  1 USD\n");
}

#[test]
fn an_amount_less_posting_carrying_only_an_assertion_reserves_the_columns() {
    let src = "2025-01-01 x\n    Expenses:Unknown\n    Assets:Cash   = 0 RSD\n";
    assert_eq!(
        hledger_x::fmt::format(src),
        "2025-01-01 x\n    Expenses:Unknown\n    Assets:Cash            = 0 RSD\n"
    );
}

// ---- restyling to declared commodity styles ----

#[test]
fn declared_styles_restyle_amounts_like_hledger_print() {
    // Verified against hledger 1.99: side, spacing and grouping are
    // normalized; decimals are never padded.
    let src = "commodity 1_000.00 EUR\n\n2025-01-01 x\n    a  10EUR\n    b  EUR10\n    c  -1234.5 EUR\n";
    assert_eq!(
        hledger_x::fmt::format(src),
        "commodity 1_000.00 EUR\n\n2025-01-01 x\n    a        10 EUR\n    b        10 EUR\n    c  -1_234.5 EUR\n"
    );
}

#[test]
fn restyling_reaches_cost_and_assertion_tails() {
    let src = "commodity 1_000.00 EUR\ncommodity 1,000.00 USD\n\n2025-01-01 x\n    a  10EUR @ 1.1USD\n    b  -11 USD = -11USD\n";
    assert_eq!(
        hledger_x::fmt::format(src),
        "commodity 1_000.00 EUR\ncommodity 1,000.00 USD\n\n2025-01-01 x\n    a   10 EUR @ 1.1 USD\n    b  -11 USD = -11 USD\n"
    );
}

#[test]
fn styles_apply_journal_wide_regardless_of_position() {
    // Verified: hledger applies a directive declared after the txn.
    let src = "2025-01-01 x\n    a  10EUR\n\ncommodity 1_000.00 EUR\n";
    assert_eq!(
        hledger_x::fmt::format(src),
        "2025-01-01 x\n    a  10 EUR\n\ncommodity 1_000.00 EUR\n"
    );
}

#[test]
fn undeclared_commodities_and_unitless_amounts_pass_through() {
    let src = "commodity 1_000.00 EUR\n\n2025-01-01 x\n    a  10USD\n    b  1_0.5\n";
    assert_eq!(hledger_x::fmt::format(src), src);
}

#[test]
fn a_bare_commodity_directive_declares_no_style() {
    let src = "commodity EUR\n\n2025-01-01 x\n    a  10EUR\n    b\n";
    assert_eq!(hledger_x::fmt::format(src), src);
}

#[test]
fn the_format_subdirective_declares_the_style() {
    let src = "commodity EUR\n    format 1.000,00 EUR\n\n2025-01-01 x\n    a  10EUR\n";
    assert_eq!(
        hledger_x::fmt::format(src),
        "commodity EUR\n    format 1.000,00 EUR\n\n2025-01-01 x\n    a  10 EUR\n"
    );
}

#[test]
fn the_last_declaration_wins_and_commodity_beats_d() {
    // Both verified against hledger 1.99.
    let src =
        "commodity 1_000.00 EUR\ncommodity 1.000,00 EUR\n\n2025-01-01 x\n    a  1234,5 EUR\n";
    assert_eq!(
        hledger_x::fmt::format(src),
        "commodity 1_000.00 EUR\ncommodity 1.000,00 EUR\n\n2025-01-01 x\n    a  1.234,5 EUR\n"
    );
    let src = "D 1.000,00 EUR\ncommodity 1_000.00 EUR\n\n2025-01-01 x\n    a  1234.5 EUR\n";
    assert_eq!(
        hledger_x::fmt::format(src),
        "D 1.000,00 EUR\ncommodity 1_000.00 EUR\n\n2025-01-01 x\n    a  1_234.5 EUR\n"
    );
}

#[test]
fn d_declares_a_style_when_no_commodity_directive_does() {
    let src = "D 1_000.00 EUR\n\n2025-01-01 x\n    a  10EUR\n    b\n";
    assert_eq!(
        hledger_x::fmt::format(src),
        "D 1_000.00 EUR\n\n2025-01-01 x\n    a  10 EUR\n    b\n"
    );
}

#[test]
fn decimal_mark_governs_parsing_and_stays_in_the_output() {
    // The forced mark must survive rendering — converting `10,5` to the
    // style's `10.5` would re-read as 105 under `decimal-mark ,`. Only
    // the grouping is normalized.
    let src = "decimal-mark ,\ncommodity 1_000.00 EUR\n\n2025-01-01 x\n    a  1000,5 EUR\n";
    assert_eq!(
        hledger_x::fmt::format(src),
        "decimal-mark ,\ncommodity 1_000.00 EUR\n\n2025-01-01 x\n    a  1_000,5 EUR\n"
    );
}

#[test]
fn restyled_widths_drive_the_alignment() {
    // The grouped form is wider than the typed form; alignment must be
    // computed on the restyled number.
    let src = "commodity 1_000.00 EUR\n\n2025-01-01 x\n    a  1234567 EUR\n    bb  -1 EUR\n";
    assert_eq!(
        hledger_x::fmt::format(src),
        "commodity 1_000.00 EUR\n\n2025-01-01 x\n    a   1_234_567 EUR\n    bb         -1 EUR\n"
    );
}

#[test]
fn restyling_is_idempotent() {
    let src = "commodity 1.000,00 EUR\ndecimal-mark .\n\n2025-01-01 x\n    a  1234.56 EUR @ 1.1USD\n    b  10EUR\n";
    let once = hledger_x::fmt::format(src);
    assert_eq!(hledger_x::fmt::format(&once), once);
}

#[test]
fn format_with_takes_the_callers_styles() {
    let ctx = scan_ctx(&["commodity 1_000.00 EUR"]);
    let src = "2025-01-01 x\n    a  10EUR\n";
    assert_eq!(format_with(src, &ctx), "2025-01-01 x\n    a  10 EUR\n");
    assert!(!is_formatted_with(src, &ctx));
    assert!(is_formatted(src)); // no styles in the text itself
}

#[test]
fn format_is_idempotent() {
    let src = "; c\n2025/01/01 x\n  A:B\t\t1 USD  ;  n\n   C:D  -1 USD\n";
    let once = hledger_x::fmt::format(src);
    assert_eq!(hledger_x::fmt::format(&once), once);
}

#[test]
fn is_formatted_reports_fixed_points() {
    assert!(is_formatted("2025-01-01 x\n    A:B  1 USD\n"));
    assert!(!is_formatted("2025-01-01 x\n  A:B  1 USD\n"));
    assert!(is_formatted(""));
}

// ---- --explicit ----

fn explicit(s: &str) -> String {
    format_opts_scanned(
        s,
        Options {
            sort: false,
            explicit: true,
        },
    )
}

#[test]
fn explicit_fills_in_the_one_inferred_amount() {
    assert_eq!(
        explicit("2026-01-01 x\n    a  10 EUR\n    b\n"),
        "2026-01-01 x\n    a   10 EUR\n    b  -10 EUR\n"
    );
}

#[test]
fn explicit_infers_through_a_cost() {
    // hledger 1.99 `print -x` fills `b` with the cost side, -11 USD.
    assert_eq!(
        explicit("2026-01-01 x\n    a  10 EUR @ 1.1 USD\n    b\n"),
        "2026-01-01 x\n    a     10 EUR @ 1.1 USD\n    b  -11.0 USD\n"
    );
}

#[test]
fn explicit_fills_a_posting_that_carries_only_an_assertion() {
    assert_eq!(
        explicit("2026-01-01 x\n    a  10 EUR\n    b   = -10 EUR\n"),
        "2026-01-01 x\n    a   10 EUR\n    b  -10 EUR = -10 EUR\n"
    );
}

#[test]
fn explicit_writes_a_zero_remainder_rather_than_nothing() {
    assert_eq!(
        explicit("2026-01-01 x\n    a  10 EUR\n    b  -10 EUR\n    c\n"),
        "2026-01-01 x\n    a   10 EUR\n    b  -10 EUR\n    c    0 EUR\n"
    );
}

#[test]
fn explicit_splits_a_multi_commodity_remainder_into_one_posting_each() {
    assert_eq!(
        explicit("2026-01-01 x\n    a  10 EUR\n    a  5 USD\n    b\n"),
        "2026-01-01 x\n    a   10 EUR\n    a    5 USD\n    b  -10 EUR\n    b   -5 USD\n"
    );
}

#[test]
fn explicit_leaves_a_transaction_it_cannot_resolve_alone() {
    // Two amount-less postings: an hledger error, and not `fmt`'s to
    // guess at.
    let src = "2026-01-01 x\n    a  10 EUR\n    b\n    c\n";
    assert_eq!(explicit(src), src);
    // An unparseable amount makes the remainder unknown.
    let src = "2026-01-01 x\n    a  wat EUR\n    b\n";
    assert_eq!(explicit(src), src);
    // Nothing to infer from at all.
    let src = "2026-01-01 x\n    a\n";
    assert_eq!(explicit(src), src);
}

#[test]
fn explicit_balances_the_three_posting_kinds_separately() {
    // `(v)` contributes to nothing; `[v]`/`[w]` balance among themselves.
    assert_eq!(
        explicit(
            "2026-01-01 x\n    a  10 EUR\n    (v)  3 EUR\n    b\n    [c]  4 EUR\n    [d]\n"
        ),
        "2026-01-01 x\n    a     10 EUR\n    (v)    3 EUR\n    b    -10 EUR\n    [c]    4 EUR\n    [d]   -4 EUR\n"
    );
}

#[test]
fn explicit_pads_amounts_to_the_declared_decimal_places() {
    assert_eq!(
        explicit("commodity 1_000.00 EUR\n\n2026-01-01 x\n    a  1234 EUR @ 1.1 USD\n    b  -4 EUR\n"),
        "commodity 1_000.00 EUR\n\n2026-01-01 x\n    a  1_234.00 EUR @ 1.1 USD\n    b     -4.00 EUR\n"
    );
    // A floor, never a ceiling: more precision than declared survives.
    assert_eq!(
        explicit(
            "commodity 1_000.00 EUR\n\n2026-01-01 x\n    a  4.001 EUR\n    b  -4.001 EUR\n"
        ),
        "commodity 1_000.00 EUR\n\n2026-01-01 x\n    a   4.001 EUR\n    b  -4.001 EUR\n"
    );
}

#[test]
fn explicit_leaves_undeclared_commodities_unpadded() {
    let src = "2026-01-01 x\n    a   1 USD\n    b  -1 USD\n";
    assert_eq!(explicit(src), src);
}

#[test]
fn an_inferred_amount_of_an_undeclared_commodity_copies_its_siblings() {
    // Nothing declares these commodities, so the postings being balanced
    // against settle how the generated one is written. Every expectation
    // here is `hledger print -x`'s own output, verified against 1.99.
    for (src, want) in [
        // Symbol attached on the left, and the sign hledger puts between
        // symbol and digits.
        ("    a  $10\n    b\n", "    a   $10\n    b  $-10\n"),
        ("    a  $-10\n    b\n", "    a  $-10\n    b   $10\n"),
        // Attached on the right, and symbol-first with a space.
        ("    a  10€\n    b\n", "    a   10€\n    b  -10€\n"),
        ("    a  USD 10\n    b\n", "    a   USD 10\n    b  USD -10\n"),
        // Digit grouping the author typed is kept.
        (
            "    a  1,234.50 USD\n    b\n",
            "    a   1,234.50 USD\n    b  -1,234.50 USD\n",
        ),
        // A zero remainder still renders in the sibling's style.
        (
            "    a  $10\n    b  $-10\n    c\n",
            "    a   $10\n    b  $-10\n    c    $0\n",
        ),
        // The style may come from a cost tail rather than a face.
        (
            "    a  10 EUR @ $1.1\n    b\n",
            "    a      10 EUR @ $1.1\n    b  $-11.0\n",
        ),
    ] {
        let src = format!("2026-01-01 x\n{src}");
        assert_eq!(explicit(&src), format!("2026-01-01 x\n{want}"), "{src}");
    }
}

#[test]
fn a_unitless_inferred_amount_stays_unitless() {
    // Invariant 3: never infer a commodity.
    assert_eq!(
        explicit("2026-01-01 x\n    a  10\n    b\n"),
        "2026-01-01 x\n    a   10\n    b  -10\n"
    );
}

#[test]
fn a_declared_style_beats_the_siblings() {
    // The directive is the author's statement about the commodity; a
    // sibling amount is only what someone happened to type.
    assert_eq!(
        explicit("commodity 1_000.00 EUR\n\n2026-01-01 x\n    a  EUR1234\n    b\n"),
        "commodity 1_000.00 EUR\n\n2026-01-01 x\n    a   1_234.00 EUR\n    b  -1_234.00 EUR\n"
    );
}

#[test]
fn explicit_never_touches_periodic_or_auto_transactions() {
    let src = "~ monthly\n    a  10 EUR\n    b\n\n= a\n    c  *2\n    d\n";
    assert_eq!(explicit(src), src);
}

#[test]
fn explicit_keeps_the_comment_on_the_posting_it_was_written_for() {
    assert_eq!(
        explicit("2026-01-01 x\n    ; note\n    a  10 EUR\n    b  ; why\n"),
        "2026-01-01 x\n    ; note\n    a   10 EUR\n    b  -10 EUR  ; why\n"
    );
}

#[test]
fn explicit_fills_through_every_cost_and_assertion_operator() {
    // hledger has four assertion operators and allows the amount to be
    // attached to any operator. Each of these forms used to make the
    // whole amount unparseable, so nothing was filled in.
    for (tail, want) in [
        ("= 10 USD", "-10 USD"),
        ("== 10 USD", "-10 USD"),
        ("=* 10 USD", "-10 USD"),
        ("==* 10 USD", "-10 USD"),
        ("=10USD", "-10 USD"),
        // The sibling is attached, so the fill is too — as hledger does.
        ("@1.1EUR", "-11.0EUR"),
        ("@@13EUR", "-13EUR"),
    ] {
        let src = format!("2026-01-01 x\n    a  10 USD {tail}\n    b\n");
        let out = explicit(&src);
        let filled = out.lines().last().unwrap_or_default().trim();
        assert_eq!(filled, format!("b  {want}"), "tail `{tail}`");
    }
}

#[test]
fn explicit_sees_through_a_status_flag_on_a_virtual_posting() {
    // `* (v)` is an unbalanced virtual posting that contributes to
    // nothing. Counting its 3 EUR into the real balance filled `b` with
    // -13 EUR, which hledger refuses to read.
    assert_eq!(
        explicit("2026-01-01 x\n    a  10 EUR\n    * (v)  3 EUR\n    b\n"),
        "2026-01-01 x\n    a       10 EUR\n    * (v)    3 EUR\n    b      -10 EUR\n"
    );
    assert_eq!(
        explicit("2026-01-01 x\n    a  10 EUR\n    b\n    ! [c]  4 EUR\n    ! [d]\n"),
        "2026-01-01 x\n    a       10 EUR\n    b      -10 EUR\n    ! [c]    4 EUR\n    ! [d]   -4 EUR\n"
    );
}

#[test]
fn explicit_is_idempotent() {
    let src = "commodity 1_000.00 EUR\n\n2026-01-01 x\n    a  1234EUR\n    a  5 USD\n    b\n\n2026-01-02 y\n    c  1 EUR\n    d\n";
    let once = explicit(src);
    assert_eq!(explicit(&once), once);
}

#[test]
fn explicit_is_off_by_default() {
    let src = "commodity 1_000.00 EUR\n\n2026-01-01 x\n    a  1234 EUR\n    b\n";
    assert_eq!(
        hledger_x::fmt::format(src),
        "commodity 1_000.00 EUR\n\n2026-01-01 x\n    a  1_234 EUR\n    b\n"
    );
}

#[test]
fn explicit_composes_with_sorting() {
    let opts = Options {
        sort: true,
        explicit: true,
    };
    assert_eq!(
        format_opts_scanned("2026-02-02 b\n    a  2 EUR\n    b\n\n2026-01-01 a\n    a  1 EUR\n    b\n", opts),
        "2026-01-01 a\n    a   1 EUR\n    b  -1 EUR\n\n2026-02-02 b\n    a   2 EUR\n    b  -2 EUR\n"
    );
}

#[test]
fn explicit_check_is_the_same_fixed_point_question() {
    let ctx = AmountCtx::default();
    let opts = Options {
        sort: false,
        explicit: true,
    };
    let src = "2026-01-01 x\n    a  10 EUR\n    b\n";
    assert!(!is_formatted_opts(src, &ctx, opts));
    assert!(is_formatted(src)); // already formatted without --explicit
    assert!(is_formatted_opts(&explicit(src), &ctx, opts));
}
