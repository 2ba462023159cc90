use hledger_x::amount::{
    balance, detach_symbol, equity_conversions, face_imbalance, imbalance, parse_amount,
    parse_number, render_amount, restyle_entered, restyle_face_fields, restyle_face_text,
    restyle_tail, style_from_sample, tail_commodities, AmountCtx, Side,
};
use hledger_x::decimal::Quantity;

#[test]
fn all_four_assertion_operators_leave_the_contribution_alone() {
    // hledger has `=`, `==` and their subaccount-inclusive `=*`/`==*`
    // forms (verified against 1.99). Reading `=*` as an unknown tail used
    // to make the whole amount unparseable, which silently blocked
    // `fmt --explicit` from filling in the other posting and made `add`
    // report the imbalance as unknown.
    let ctx = AmountCtx::default();
    for tail in ["= 10 USD", "== 10 USD", "=* 10 USD", "==* 10 USD"] {
        let text = format!("10 USD {tail}");
        let parsed = parse_amount(&text, &ctx).unwrap_or_else(|| panic!("{text}"));
        assert_eq!(parsed.contributes.0, dec("10"), "{text}");
        assert_eq!(parsed.contributes.1, "USD", "{text}");
    }
}

#[test]
fn an_operator_with_its_amount_attached_still_parses() {
    // `@1.1EUR` is one token. It used to parse only by luck, when
    // restyling happened to split it first — which needs a declared
    // style, so an undeclared commodity fell through the gap.
    let ctx = AmountCtx::default();
    let parsed = parse_amount("10 USD @1.1EUR", &ctx).unwrap();
    assert_eq!(parsed.contributes, (dec("11"), "EUR".to_owned()));
    let parsed = parse_amount("10 USD @@13EUR", &ctx).unwrap();
    assert_eq!(parsed.contributes, (dec("13"), "EUR".to_owned()));
    let parsed = parse_amount("10 USD =10USD", &ctx).unwrap();
    assert_eq!(parsed.contributes, (dec("10"), "USD".to_owned()));
}

#[test]
fn a_sign_between_symbol_and_digits_belongs_to_the_number() {
    // `$-10` is how hledger writes a negative dollar amount: one
    // commodity `$`, not a commodity `$-` (verified against 1.99).
    assert_eq!(detach_symbol("$-10"), ("-10".to_owned(), "$".to_owned()));
    assert_eq!(detach_symbol("-$10"), ("-10".to_owned(), "$".to_owned()));
    assert_eq!(detach_symbol("$+10"), ("+10".to_owned(), "$".to_owned()));
    assert_eq!(detach_symbol("$10"), ("10".to_owned(), "$".to_owned()));
    assert_eq!(detach_symbol("10€"), ("10".to_owned(), "€".to_owned()));
    assert_eq!(detach_symbol("-10€"), ("-10".to_owned(), "€".to_owned()));

    // So the two forms sum as one commodity rather than cancelling into
    // two bogus ones.
    let ctx = AmountCtx::default();
    assert_eq!(
        balance(&["$10", "$-10"], &ctx),
        Some(vec![("$".to_owned(), Quantity::zero())])
    );
    assert_eq!(
        style_from_sample("$-10").map(|(name, _)| name),
        Some("$".to_owned())
    );
}

fn dec(s: &str) -> Quantity {
    parse_number(s, Some('.')).unwrap()
}

fn ctx() -> AmountCtx {
    AmountCtx::default()
}

fn ctx_with(commodity: &str, sample: &str) -> AmountCtx {
    let mut c = AmountCtx::default();
    let (name, style) = style_from_sample(sample).unwrap();
    assert_eq!(name, commodity);
    c.styles.insert(name, style);
    c
}

// ---- auto-detection, mirroring the verified hledger behaviour ----

#[test]
fn amount_a_single_mark_occurring_once_is_the_decimal_mark() {
    assert_eq!(parse_number("1.234", None), Some(dec("1.234")));
    assert_eq!(parse_number("1,234", None), Some(dec("1.234")));
}

#[test]
fn amount_a_repeated_single_mark_is_grouping() {
    assert_eq!(parse_number("1.234.567", None), Some(dec("1234567")));
    assert_eq!(parse_number("1,234,567", None), Some(dec("1234567")));
}

#[test]
fn amount_with_both_marks_the_last_one_is_decimal() {
    assert_eq!(parse_number("1.234,56", None), Some(dec("1234.56")));
    assert_eq!(parse_number("1,234.56", None), Some(dec("1234.56")));
}

#[test]
fn amount_underscore_is_always_grouping() {
    assert_eq!(parse_number("50_888.56", None), Some(dec("50888.56")));
    assert_eq!(parse_number("1_000", None), Some(dec("1000")));
}

#[test]
fn amount_a_forced_mark_overrides_detection() {
    // With decimal-mark '.', a lone comma groups.
    assert_eq!(parse_number("1,234", Some('.')), Some(dec("1234")));
    assert_eq!(parse_number("1.234", Some(',')), Some(dec("1234")));
    assert_eq!(parse_number("1.234,56", Some(',')), Some(dec("1234.56")));
}

#[test]
fn amount_signs_and_bare_integers() {
    assert_eq!(parse_number("-5", None), Some(dec("-5")));
    assert_eq!(parse_number("+5.0", None), Some(dec("5.0")));
    assert_eq!(parse_number("0", None), Some(dec("0")));
}

#[test]
fn amount_garbage_is_none_not_wrong() {
    assert_eq!(parse_number("", None), None);
    assert_eq!(parse_number("abc", None), None);
    assert_eq!(parse_number("1,2.3.4", None), None);
    assert_eq!(parse_number("1.2,3_4", None), None);
}

// ---- typed amount fields ----

#[test]
fn amount_amount_with_right_commodity() {
    let p = parse_amount("23.45 EUR", &ctx()).unwrap();
    assert_eq!(p.value, dec("23.45"));
    assert_eq!(p.commodity, "EUR");
    assert_eq!(p.contributes, (dec("23.45"), "EUR".into()));
}

#[test]
fn amount_unitless_amounts_are_valid() {
    let p = parse_amount("42", &ctx()).unwrap();
    assert_eq!(p.commodity, "");
    assert_eq!(p.contributes, (dec("42"), String::new()));
}

#[test]
fn amount_attached_and_left_symbols() {
    let p = parse_amount("$100", &ctx()).unwrap();
    assert_eq!((p.value, p.commodity.as_str()), (dec("100"), "$"));
    let p = parse_amount("-$5.20", &ctx()).unwrap();
    assert_eq!((p.value, p.commodity.as_str()), (dec("-5.20"), "$"));
    let p = parse_amount("100€", &ctx()).unwrap();
    assert_eq!((p.value, p.commodity.as_str()), (dec("100"), "€"));
    let p = parse_amount("USD 100", &ctx()).unwrap();
    assert_eq!((p.value, p.commodity.as_str()), (dec("100"), "USD"));
}

#[test]
fn amount_unit_cost_converts_the_contribution() {
    let p = parse_amount("-5 EUR @ 1.2 USD", &ctx()).unwrap();
    assert_eq!(p.value, dec("-5"));
    assert_eq!(p.commodity, "EUR");
    assert_eq!(p.contributes, (dec("-6.0"), "USD".into()));
}

#[test]
fn amount_total_cost_takes_the_amount_sign() {
    // Verified: -5 EUR @@ 6 USD contributes -6 USD.
    let p = parse_amount("-5 EUR @@ 6 USD", &ctx()).unwrap();
    assert_eq!(p.contributes, (dec("-6"), "USD".into()));
    let p = parse_amount("5 EUR @@ 6 USD", &ctx()).unwrap();
    assert_eq!(p.contributes, (dec("6"), "USD".into()));
}

#[test]
fn amount_assertion_tails_do_not_affect_the_contribution() {
    let p = parse_amount("10 EUR = 100 EUR", &ctx()).unwrap();
    assert_eq!(p.contributes, (dec("10"), "EUR".into()));
}

#[test]
fn amount_commodity_style_supplies_the_decimal_mark() {
    // Style says comma-decimal, so typed 1.234 groups: 1234.
    let c = ctx_with("EUR", "1.000,00 EUR");
    let p = parse_amount("1.234 EUR", &c).unwrap();
    assert_eq!(p.value, dec("1234"));
}

#[test]
fn amount_directive_mark_beats_commodity_style() {
    let mut c = ctx_with("EUR", "1.000,00 EUR");
    c.decimal_mark = Some('.');
    let p = parse_amount("1.234 EUR", &c).unwrap();
    assert_eq!(p.value, dec("1.234"));
}

// ---- balance and imbalance ----

#[test]
fn amount_balance_sums_per_commodity() {
    let sums = balance(&["23.45 EUR", "-20 EUR", "5 USD"], &ctx()).unwrap();
    assert_eq!(
        sums,
        vec![("EUR".into(), dec("3.45")), ("USD".into(), dec("5"))]
    );
}

#[test]
fn amount_empty_amounts_are_skipped_but_garbage_poisons_the_balance() {
    assert_eq!(
        balance(&["1 EUR", "", "  "], &ctx()).unwrap(),
        vec![("EUR".into(), dec("1"))]
    );
    assert_eq!(balance(&["1 EUR", "wat"], &ctx()), None);
}

#[test]
fn amount_imbalance_drops_zeroed_commodities() {
    let imb = imbalance(&["5 EUR", "-5 EUR", "1 USD"], &ctx()).unwrap();
    assert_eq!(imb, vec![("USD".into(), dec("1"))]);
}

#[test]
fn amount_cost_postings_balance_in_the_priced_commodity() {
    let imb = imbalance(&["-5 EUR @ 1.2 USD", "6.0 USD"], &ctx()).unwrap();
    assert!(imb.is_empty());
}

// ---- face balance and equity conversions ----

#[test]
fn face_balance_ignores_cost_tails() {
    // At cost this balances; at face value it does not.
    let amounts = ["10 USD @@ 9.06 EUR", "-9.06 EUR"];
    assert!(imbalance(&amounts, &ctx()).unwrap().is_empty());
    assert_eq!(
        face_imbalance(&amounts, &ctx()).unwrap(),
        vec![("USD".into(), dec("10")), ("EUR".into(), dec("-9.06"))]
    );
}

#[test]
fn equity_conversions_negate_the_face_imbalance_in_first_appearance_order() {
    assert_eq!(
        equity_conversions(&["10 USD @@ 9.06 EUR", "-9.06 EUR"], &ctx()),
        vec!["-10 USD".to_owned(), "9.06 EUR".to_owned()]
    );
}

#[test]
fn equity_conversions_are_empty_when_nothing_is_converted() {
    // A single-commodity transaction needs none.
    assert!(equity_conversions(&["5 EUR", "-5 EUR"], &ctx()).is_empty());
    // Unknown imbalance: never guess.
    assert!(equity_conversions(&["5 EUR", "wat"], &ctx()).is_empty());
    // An elided amount makes the face imbalance meaningless.
    assert!(equity_conversions(&["5 EUR", ""], &ctx()).is_empty());
}

#[test]
fn equity_conversions_follow_declared_styles() {
    let c = ctx_with("EUR", "1.000,00 EUR");
    assert_eq!(
        equity_conversions(&["10 USD @@ 9,06 EUR", "-9,06 EUR"], &c),
        vec!["-10 USD".to_owned(), "9,06 EUR".to_owned()]
    );
}

// ---- styles and rendering ----

#[test]
fn amount_tail_commodities_are_extracted_from_costs_and_assertions() {
    assert_eq!(tail_commodities("23.45 EUR"), Vec::<String>::new());
    assert_eq!(tail_commodities("5 EUR @ 1.10 USD"), vec!["USD"]);
    assert_eq!(
        tail_commodities("5 EUR @@ 6 USD = 5 EUR"),
        vec!["USD", "EUR"]
    );
    assert_eq!(tail_commodities("5 EUR ==* 5 EUR"), vec!["EUR"]);
    // Attached symbols count too.
    assert_eq!(tail_commodities("5 EUR @ $1.10"), vec!["$"]);
    // Unitless tails have none.
    assert_eq!(tail_commodities("5 @ 1.10"), Vec::<String>::new());
}

#[test]
fn amount_style_from_right_symbol_sample() {
    let (name, s) = style_from_sample("1_000.00 EUR").unwrap();
    assert_eq!(name, "EUR");
    assert_eq!(s.decimal_mark, '.');
    assert_eq!(s.group_sep, Some('_'));
    assert_eq!(s.group_sizes, vec![3]);
    assert_eq!(s.decimal_places, 2);
    assert_eq!(s.symbol_side, Side::Right);
    assert!(s.symbol_space);
}

#[test]
fn amount_style_from_attached_left_symbol_sample() {
    let (name, s) = style_from_sample("$1000.00").unwrap();
    assert_eq!(name, "$");
    assert_eq!(s.symbol_side, Side::Left);
    assert!(!s.symbol_space);
    assert_eq!(s.group_sep, None);
}

#[test]
fn amount_style_from_comma_decimal_sample() {
    let (_, s) = style_from_sample("1.000,00 EUR").unwrap();
    assert_eq!(s.decimal_mark, ',');
    assert_eq!(s.group_sep, Some('.'));
}

#[test]
fn amount_bare_symbol_samples_have_no_style() {
    assert_eq!(style_from_sample("USD"), None);
}

#[test]
fn amount_render_respects_the_declared_style() {
    let c = ctx_with("EUR", "1_000.00 EUR");
    assert_eq!(render_amount(dec("23.4"), "EUR", &c), "23.40 EUR");
    assert_eq!(render_amount(dec("-51234.5"), "EUR", &c), "-51_234.50 EUR");
}

#[test]
fn amount_render_comma_style_groups_with_dots() {
    let c = ctx_with("EUR", "1.000,00 EUR");
    assert_eq!(
        render_amount(dec("1234567.8"), "EUR", &c),
        "1.234.567,80 EUR"
    );
}

#[test]
fn amount_render_never_rounds_a_balancing_amount() {
    let c = ctx_with("EUR", "1_000.00 EUR");
    assert_eq!(render_amount(dec("23.456"), "EUR", &c), "23.456 EUR");
}

#[test]
fn amount_render_left_symbol() {
    let c = ctx_with("$", "$1000.00");
    assert_eq!(render_amount(dec("-5.2"), "$", &c), "$-5.20");
}

// ---- restyling, mirroring verified `hledger print` behaviour ----

#[test]
fn restyle_normalizes_side_space_and_grouping_but_never_pads() {
    // Verified: hledger prints `10 EUR`, not `10.00 EUR`.
    let c = ctx_with("EUR", "1_000.00 EUR");
    assert_eq!(restyle_face_text("10EUR", &c).unwrap(), "10 EUR");
    assert_eq!(restyle_face_text("EUR10", &c).unwrap(), "10 EUR");
    assert_eq!(restyle_face_text("EUR 10", &c).unwrap(), "10 EUR");
    assert_eq!(
        restyle_face_text("-1234.5 EUR", &c).unwrap(),
        "-1_234.5 EUR"
    );
    // Verified: trailing zeros are kept.
    assert_eq!(restyle_face_text("10.500 EUR", &c).unwrap(), "10.500 EUR");
}

#[test]
fn restyle_converts_the_decimal_mark() {
    let c = ctx_with("EUR", "1.000,00 EUR");
    assert_eq!(
        restyle_face_text("1000,50 EUR", &c).unwrap(),
        "1.000,50 EUR"
    );
    // Verified: under a comma-decimal style hledger reads `10.5` as 105.
    assert_eq!(restyle_face_text("10.5 EUR", &c).unwrap(), "105 EUR");
    // A decimal-mark directive governs parsing AND stays in the rendered
    // number: switching to the style's mark would change the value on
    // re-read. (hledger print switches marks, but its output drops the
    // directive; a formatter writing back into the file cannot.)
    let mut c = ctx_with("EUR", "1_000.00 EUR");
    c.decimal_mark = Some(',');
    assert_eq!(restyle_face_text("10,5 EUR", &c).unwrap(), "10,5 EUR");
    assert_eq!(restyle_face_text("1000,5 EUR", &c).unwrap(), "1_000,5 EUR");
    // A colliding group separator swaps with the displaced decimal mark.
    let mut c = ctx_with("EUR", "1.000,00 EUR");
    c.decimal_mark = Some('.');
    assert_eq!(restyle_face_text("1000.5 EUR", &c).unwrap(), "1,000.5 EUR");
}

#[test]
fn restyle_leaves_the_undeclared_and_the_unparseable_alone() {
    let c = ctx_with("EUR", "1_000.00 EUR");
    assert_eq!(restyle_face_text("10USD", &c), None);
    assert_eq!(restyle_face_text("42", &c), None); // unitless
    assert_eq!(restyle_face_text("wat", &c), None);
    assert_eq!(restyle_face_text("", &c), None);
}

#[test]
fn restyle_fields_split_by_symbol_placement() {
    let c = ctx_with("EUR", "1_000.00 EUR");
    assert_eq!(
        restyle_face_fields("10EUR", "", &c).unwrap(),
        ("10".to_owned(), "EUR".to_owned())
    );
    // Attached left symbol: the whole amount is the number field.
    let c = ctx_with("$", "$1000.00");
    assert_eq!(
        restyle_face_fields("5", "$", &c).unwrap(),
        ("$5".to_owned(), String::new())
    );
    assert_eq!(
        restyle_face_fields("-$5.2", "", &c).unwrap(),
        ("$-5.2".to_owned(), String::new())
    );
    // Spaced left symbol: also one field, aligned as a unit.
    let c = ctx_with("USD", "USD 1,000.00");
    assert_eq!(
        restyle_face_fields("100USD", "", &c).unwrap(),
        ("USD 100".to_owned(), String::new())
    );
}

#[test]
fn restyle_tail_reaches_costs_and_assertions() {
    let mut c = ctx_with("EUR", "1_000.00 EUR");
    let (n, s) = style_from_sample("1,000.00 USD").unwrap();
    c.styles.insert(n, s);
    assert_eq!(restyle_tail(&["@", "1.1USD"], &c), vec!["@", "1.1", "USD"]);
    assert_eq!(restyle_tail(&["=", "-11USD"], &c), vec!["=", "-11", "USD"]);
    // Attached operator amounts restyle too.
    assert_eq!(restyle_tail(&["=5EUR"], &c), vec!["=", "5", "EUR"]);
    // Undeclared or unparseable groups stay verbatim.
    assert_eq!(
        restyle_tail(&["@", "1.1", "GBP"], &c),
        vec!["@", "1.1", "GBP"]
    );
    assert_eq!(restyle_tail(&["@", "wat"], &c), vec!["@", "wat"]);
}

#[test]
fn a_generated_amount_sheds_arithmetic_trailing_zeros_but_keeps_the_floor() {
    let c = ctx_with("EUR", "1_000.00 EUR");
    let d = dec;
    // 10.00 × 1.105 lands at scale 5; the zeros say nothing.
    assert_eq!(render_amount(d("11.05000"), "EUR", &c), "11.05 EUR");
    // The declared places are still a floor.
    assert_eq!(render_amount(d("5"), "EUR", &c), "5.00 EUR");
    assert_eq!(render_amount(d("5.0"), "EUR", &c), "5.00 EUR");
    // Genuine precision beyond the declaration survives.
    assert_eq!(render_amount(d("11.056"), "EUR", &c), "11.056 EUR");
    assert_eq!(render_amount(d("11.05600"), "EUR", &c), "11.056 EUR");
}

#[test]
fn restyle_entered_covers_face_and_tail() {
    let mut c = ctx_with("EUR", "1_000.00 EUR");
    let (n, s) = style_from_sample("1,000.00 USD").unwrap();
    c.styles.insert(n, s);
    // Face, price and assertion all take their commodity's declared two
    // places — every amount in the field the user just typed.
    assert_eq!(
        restyle_entered("10EUR @ 1.1USD = 5EUR", &c),
        "10.00 EUR @ 1.10 USD = 5.00 EUR"
    );
    // Nothing restylable: byte-identical tokens, single-spaced.
    assert_eq!(restyle_entered("10 GBP", &c), "10 GBP");
}

#[test]
fn restyling_never_changes_the_parsed_value() {
    let mut c = ctx_with("EUR", "1.000,00 EUR");
    let (n, s) = style_from_sample("1,000.00 USD").unwrap();
    c.styles.insert(n, s);
    for src in ["10EUR", "1000,50 EUR", "10.5 EUR", "-5EUR @ 1.2USD"] {
        let restyled = restyle_entered(src, &c);
        assert_eq!(
            parse_amount(src, &c).unwrap(),
            parse_amount(&restyled, &c).unwrap(),
            "value drifted for {src:?} -> {restyled:?}"
        );
    }
}

#[test]
fn amount_render_without_a_style_keeps_the_value_scale() {
    assert_eq!(render_amount(dec("23.45"), "EUR", &ctx()), "23.45 EUR");
    assert_eq!(render_amount(dec("7"), "", &ctx()), "7");
    let mut c = ctx();
    c.decimal_mark = Some(',');
    assert_eq!(render_amount(dec("23.45"), "EUR", &c), "23,45 EUR");
}

#[test]
fn amounts_attached_to_their_operator_name_their_commodity() {
    assert_eq!(tail_commodities("10 USD @1.1EUR"), vec!["EUR"]);
    assert_eq!(tail_commodities("10 USD @ 1.1EUR"), vec!["EUR"]);
    assert_eq!(tail_commodities("10 USD @@$5 ==*3GBP"), vec!["$", "GBP"]);
    assert_eq!(tail_commodities("10 USD @1.1 EUR =5"), vec!["EUR"]);
}
