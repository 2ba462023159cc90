use hledger_x::fmt::sort::{date_key, sort_entries, DateKey};

fn key(year: i64, month: i64, day: i64) -> DateKey {
    DateKey { year, month, day }
}

fn sorted(src: &str) -> String {
    let ls: Vec<&str> = src.split('\n').collect();
    sort_entries(&ls).join("\n")
}

#[test]
fn date_keys_from_transaction_headers() {
    assert_eq!(date_key("2025-03-02 later"), key(2025, 3, 2));
    assert_eq!(date_key("2025/03/02"), key(2025, 3, 2));
    assert_eq!(date_key("2025.03.02 payee"), key(2025, 3, 2));
    // A secondary date is dropped.
    assert_eq!(date_key("2025-03-02=2025-03-09 payee"), key(2025, 3, 2));
    // Two components mean no year.
    assert_eq!(date_key("03-02 payee"), key(0, 3, 2));
    // Unparseable components become zero; unparseable shapes sort first.
    assert_eq!(date_key("2025-XX-02 payee"), key(2025, 0, 2));
    assert_eq!(date_key("garbage"), key(0, 0, 0));
}

#[test]
fn transactions_sort_by_date_within_a_run() {
    let src = "2025-03-02 b\n    A:B  1 USD\n\n2025-01-05 a\n    A:B  2 USD\n";
    assert_eq!(
        sorted(src),
        "2025-01-05 a\n    A:B  2 USD\n\n2025-03-02 b\n    A:B  1 USD\n"
    );
}

#[test]
fn equal_dates_keep_their_source_order() {
    let src = "2025-01-05 B\n\n2025-01-05 A\n";
    assert_eq!(sorted(src), "2025-01-05 B\n\n2025-01-05 A\n");
}

#[test]
fn directives_are_barriers() {
    // The February transaction sits after a price directive and must stay
    // there, even though it is older than the January one above it.
    let src = "2025-03-02 b\n\nP 2025-06-01 USD 1 EUR\n\n2025-02-01 a\n";
    assert_eq!(sorted(src), src);
}

#[test]
fn a_comment_directly_above_a_transaction_travels_with_it() {
    let src = "; about b\n2025-03-02 b\n\n2025-01-05 a\n";
    assert_eq!(sorted(src), "2025-01-05 a\n\n; about b\n2025-03-02 b\n");
}

#[test]
fn a_comment_followed_by_a_blank_line_is_a_barrier() {
    let src = "2025-03-02 b\n\n; standalone\n\n2025-01-05 a\n";
    assert_eq!(sorted(src), src);
}

#[test]
fn blank_lines_stay_in_their_original_positions() {
    // Three transactions, uneven blank separation: the blanks do not move.
    let src = "2025-03-01 c\n\n\n2025-01-01 a\n\n2025-02-01 b\n";
    assert_eq!(
        sorted(src),
        "2025-01-01 a\n\n\n2025-02-01 b\n\n2025-03-01 c\n"
    );
}

#[test]
fn posting_lines_travel_with_their_header() {
    let src = "2025-03-02 b\n    A:B  1 USD\n    C:D\n2025-01-05 a\n    E:F  2 USD\n";
    assert_eq!(
        sorted(src),
        "2025-01-05 a\n    E:F  2 USD\n2025-03-02 b\n    A:B  1 USD\n    C:D\n"
    );
}
