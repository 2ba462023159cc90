use hledger_x::amount::AmountCtx;
use hledger_x::decimal::Quantity;
use hledger_x::fmt::explicit::{amount_text, needs_amount, remainder, Group};
use hledger_x::fmt::posting::Posting;

#[test]
fn accounts_are_grouped_by_their_brackets() {
    assert_eq!(Group::of("Assets:Bank"), Group::Real);
    assert_eq!(Group::of("[Assets:Bank]"), Group::Balanced);
    assert_eq!(Group::of("(Assets:Bank)"), Group::Unbalanced);
}

#[test]
fn a_posting_is_waiting_when_it_has_no_face_amount() {
    assert!(needs_amount(&Posting::Bare("a".into(), None)));
    assert!(needs_amount(&Posting::Amount {
        account: "a".into(),
        num: String::new(),
        commodity: String::new(),
        rest: vec!["=".into(), "0".into(), "EUR".into()],
        comment: None,
    }));
    assert!(!needs_amount(&Posting::Amount {
        account: "a".into(),
        num: "1".into(),
        commodity: "EUR".into(),
        rest: Vec::new(),
        comment: None,
    }));
    assert!(!needs_amount(&Posting::Comment("; hi".into())));
}

#[test]
fn amount_text_rejoins_face_and_tail() {
    assert_eq!(
        amount_text(&Posting::Amount {
            account: "a".into(),
            num: "10".into(),
            commodity: "EUR".into(),
            rest: vec!["@".into(), "1.1".into(), "USD".into()],
            comment: None,
        }),
        Some("10 EUR @ 1.1 USD".to_owned())
    );
    assert_eq!(amount_text(&Posting::Bare("a".into(), None)), None);
}

#[test]
fn an_all_zero_remainder_still_names_the_commodity() {
    let ctx = AmountCtx::default();
    let sums = vec![("EUR".to_owned(), Quantity::zero())];
    assert_eq!(remainder(&sums, &ctx, &[]), Some(vec!["0 EUR".to_owned()]));
}
