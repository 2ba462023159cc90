use hledger_x::add::integrate::integrate;
use hledger_x::add::recovery::{parse_transactions_in, record};
use hledger_x::add::write::{Insertion, NewTransaction, Posting, WriteOptions};
use hledger_x::amount::{imbalance, parse_amount, parse_number, AmountCtx};
use hledger_x::date::Date;
use hledger_x::decimal::Quantity;
use hledger_x::add::ui::distance::levenshtein;
use hledger_x::fmt::blank::normalize;
use hledger_x::fmt::posting::{parse_posting, restyle_with};
use hledger_x::fmt::sort::sort_entries;
use hledger_x::fmt::{
    format_opts_scanned, format_sorted, format_with, is_formatted, lines, scan_ctx, unlines,
    widths_with, Options,
};
use hledger_x::restyle::{render_amount, restyle_entered, restyle_face_text, Places};

/// Journals of every shape: styles on both sides, costs, blocks, barriers.
const SAMPLES: [&str; 8] = [
    "",
    "2025-01-01 x\n  a   1 USD\n b",
    "commodity $1,000.00\ncommodity 1.000,00 EUR\ncommodity USD 1_000.0\n\n\n2025-01-01 x  \n a  $1234.5 @ 1234,5EUR ; note\n b  -17 EUR = 3EUR\n c  5.25 USD\n d",
    "D 1000.00 CHF\n2025-02-03 late\n\ta:b\t\t1234 CHF\n; lead\n2025-01-01 early\n    c  -12 CHF\n",
    "comment\n\n  2025-01-01 not one\n\nend comment\n2025-01-01 one\n  a  1\ncomment\nopen\n\n\n",
    "decimal-mark ,\ncommodity 1_000,00 EUR\n2025-01-01 x\n  (v)  1234,5 EUR\n  [w]  EUR 7\n",
    "~ monthly\n    a  1 EUR\n= expr\n    b  *2\n\n\nP 2025-01-01 EUR $1.1\naccount a\n  ; sub\n2025-01-01=01-02 x\n    ; alone\n    a:b c  ==* 5 EUR\n",
    "commodity\n  format 1.00 X\ncommodity Y\n  format Y1,0\n2025-01-01 x\n  a  Y1234,5\n  b  2X\n",
];

fn ctx_of(directives: &[&str]) -> AmountCtx {
    scan_ctx(directives)
}

#[test]
fn formatting_a_formatted_text_changes_nothing() {
    for s in SAMPLES {
        let once = hledger_x::fmt::format(s);
        assert_eq!(hledger_x::fmt::format(&once), once, "{s:?}");
        assert!(is_formatted(&once));
    }
    let styles = ctx_of(&["commodity €1.000,00", "commodity 1_000.00 USD"]);
    for s in SAMPLES {
        let once = format_with(s, &styles);
        assert_eq!(format_with(&once, &styles), once, "{s:?}");
    }
}

#[test]
fn an_amount_that_would_read_as_another_is_left_as_written() {
    // The digit groups and the decimal places are set off by the same mark.
    let odd = "commodity 1.000.0 EUR\n\n2025-01-01 x\n    a  1234 EUR\n";
    assert_eq!(hledger_x::fmt::format(odd), odd);
}

#[test]
fn what_stands_behind_an_amount_is_never_lost() {
    let styled = "commodity USD 1,000.00\n\n2025-01-01 x\n    a  100 USD extra\n    b  USD 100 extra\n";
    let once = hledger_x::fmt::format(styled);
    assert!(once.contains("100 USD extra"), "{once}");
    assert!(once.contains("USD 100 extra"), "{once}");
    assert_eq!(hledger_x::fmt::format(&once), once);
    // Where the symbol has a column of its own the number is still restyled.
    let right = "commodity 1,000.00 USD\n2025-01-01 x\n    a  1000 USD {2 EUR}\n";
    assert!(hledger_x::fmt::format(right).contains("1,000 USD {2 EUR}"));
}

#[test]
fn filling_in_amounts_settles() {
    for sort in [false, true] {
        let opts = Options { sort, explicit: true };
        for s in SAMPLES {
            let once = format_opts_scanned(s, opts);
            assert_eq!(format_opts_scanned(&once, opts), once, "{s:?}");
        }
        for s in [
            "2025-01-01 x\n  a  1 EUR\n  b  2 USD\n  c  ; split\n",
            "2025-01-01 x\n  a  1 EUR\n  b  2 USD\n  c  = 3 EUR\n",
            "2025-01-01 x\n  a  1 EUR\n  b\n  c\n",
            "2025-01-01 x\n  a  1 EUR\n  b  = 3 EUR\n  [v]  4 EUR\n  [w]\n",
            "2025-01-01 x\n  a  what\n  b\n2025-01-01 y\n  a  $1,234.5\n  b  0\n  c\n",
        ] {
            let once = format_opts_scanned(s, opts);
            assert_eq!(format_opts_scanned(&once, opts), once, "{s:?}");
        }
    }
}

#[test]
fn a_formatted_text_declares_the_same_styles() {
    for s in SAMPLES {
        let once = hledger_x::fmt::format(s);
        let before = scan_ctx(&lines(s));
        let after = scan_ctx(&lines(&once));
        for name in ["$", "EUR", "USD", "CHF", "X", "Y", "nothing"] {
            assert_eq!(
                format!("{:?}", before.styles.get(name)),
                format!("{:?}", after.styles.get(name)),
                "{name} in {s:?}"
            );
        }
    }
}

#[test]
fn every_text_but_the_empty_one_ends_in_a_newline() {
    for s in SAMPLES {
        let out = hledger_x::fmt::format(s);
        assert!(out.is_empty() || out.ends_with('\n'));
        assert_eq!(out.is_empty(), lines(s).iter().all(|l| l.trim().is_empty()));
    }
}

#[test]
fn joined_lines_come_apart_again() {
    let ls = ["a", "", " b\r", ""];
    assert_eq!(lines(&unlines(&ls)), ls);
}

#[test]
fn only_blank_lines_come_and_go() {
    for s in SAMPLES {
        let ls = lines(s);
        let solid = |v: &[&str]| -> Vec<String> {
            v.iter()
                .filter(|l| !l.trim().is_empty())
                .map(|l| (*l).to_owned())
                .collect()
        };
        let once = normalize(&ls);
        assert_eq!(solid(&once), solid(&ls));
        assert_eq!(normalize(&once), once);
    }
}

#[test]
fn other_lines_are_left_as_they_are() {
    let s = "P  2025-01-01   EUR  $1.1\naccount   a ; c\n\n; lone\n\ncomment\n   x\n\n\n y  \nend comment\n";
    assert_eq!(hledger_x::fmt::format(s), s);
}

#[test]
fn sorting_is_stable_and_keeps_to_its_barriers() {
    let s = [
        "2025-03-01 c",
        "    a  1",
        "2025-01-01 a1",
        "2025-01-01 a2",
        "",
        "; of b",
        "2025-02-01 b",
        "account x",
        "2025-01-15 z2",
        "2025-01-10 z1",
    ];
    let out = sort_entries(&s);
    assert_eq!(
        out,
        [
            "2025-01-01 a1",
            "2025-01-01 a2",
            "; of b",
            "2025-02-01 b",
            "",
            "2025-03-01 c",
            "    a  1",
            "account x",
            "2025-01-10 z1",
            "2025-01-15 z2",
        ]
    );
    let mut left: Vec<&str> = s.to_vec();
    let mut right = out.clone();
    left.sort_unstable();
    right.sort_unstable();
    assert_eq!(left, right);
    assert_eq!(sort_entries(&out), out);
}

#[test]
fn a_sorted_text_stays_sorted() {
    for s in SAMPLES {
        let once = format_sorted(s);
        assert_eq!(format_sorted(&once), once, "{s:?}");
    }
}

#[test]
fn restyling_keeps_values() {
    let ctx = ctx_of(&["commodity $1,000.00", "commodity 1.000,00 EUR"]);
    for field in ["$1234.5", "-7 EUR", "1234,567EUR", "EUR 0", "$-.5"] {
        let before = parse_amount(field, &ctx).unwrap();
        let shown = restyle_face_text(field, &ctx).unwrap();
        let after = parse_amount(&shown, &ctx).unwrap();
        assert!(before.value == after.value, "{field} as {shown}");
        assert_eq!(before.commodity, after.commodity);
        let padded = restyle_entered(field, &ctx);
        assert!(before.value == parse_amount(&padded, &ctx).unwrap().value);
    }
    assert_eq!(restyle_entered("1234,5EUR @ $2", &ctx), "1.234,50 EUR @ $2.00");
}

#[test]
fn a_balancing_amount_keeps_every_place() {
    let ctx = ctx_of(&["commodity 1,000.00 EUR"]);
    let value = Quantity::new(-1_234_567_800, 6).unwrap();
    let shown = render_amount(value, "EUR", &ctx);
    assert_eq!(shown, "-1,234.5678 EUR");
    let back = parse_number("-1,234.5678", Some('.')).unwrap();
    assert!(back == value);
}

#[test]
fn what_is_filled_in_balances() {
    let s = "commodity 1.000,00 EUR\ncommodity $1,000.00\n2025-01-01 x\n    a  1234,5678 EUR\n    b  $3 @@ 2 EUR\n    c  $0.1\n    d\n";
    let out = format_opts_scanned(
        s,
        Options {
            sort: false,
            explicit: true,
        },
    );
    let ctx = ctx_of(&["commodity 1.000,00 EUR", "commodity $1,000.00"]);
    let amounts: Vec<String> = lines(&out)
        .iter()
        .filter(|l| l.starts_with("    "))
        .map(|l| l[6..].trim().to_owned())
        .collect();
    assert_eq!(
        amounts,
        ["1.234,5678 EUR", "$3.00 @@ 2,00 EUR", "$0.10", "-1.236,5678 EUR", "$-0.10"]
    );
    let refs: Vec<&str> = amounts.iter().map(String::as_str).collect();
    assert!(imbalance(&refs, &ctx).unwrap().is_empty());
}

fn entered(day: u32, description: &str, comment: &str, posts: &[(&str, &str, &str)]) -> NewTransaction {
    NewTransaction {
        date: Date::new(2026, 1, day).unwrap(),
        description: description.to_owned(),
        comment: comment.to_owned(),
        postings: posts
            .iter()
            .map(|(a, b, c)| Posting {
                account: (*a).to_owned(),
                amount: (*b).to_owned(),
                comment: (*c).to_owned(),
            })
            .collect(),
    }
}

#[test]
fn a_recorded_session_is_restored() {
    let ts = [
        entered(1, "", "", &[]),
        entered(
            2,
            "Rewe | weekly shop",
            "trip: here",
            &[
                ("expenses:food and drink", "12.00 EUR @ 1.1 USD = 3 EUR", "x"),
                ("[assets]", "$-5", ""),
                ("b", "", "only: this"),
            ],
        ),
        entered(3, "plain", "", &[("c", "1 000 EUR", ""), ("d", "", "")]),
    ];
    let mut journal = String::new();
    for t in &ts {
        journal.push_str(&record(t));
    }
    for year in [1999, 2026] {
        let back = parse_transactions_in(&journal, year);
        assert_eq!(format!("{back:?}"), format!("{ts:?}"));
    }
}

#[test]
fn without_formatting_the_file_keeps_its_lines() {
    let src = "account a\n\n2026-01-01  x \n  a  1 EUR\n\tb\n; end\n2026-01-09 y\n a  2\n";
    let opts = WriteOptions {
        format_file: false,
        sort: false,
        insertion: Insertion::Chronological,
    };
    let out = integrate(
        src,
        &[
            entered(5, "five", "", &[("a", "1 EUR", ""), ("b", "-1 EUR", "")]),
            entered(2, "two", "", &[("a", "2 EUR", ""), ("b", "-2 EUR", "")]),
        ],
        &opts,
    );
    let mut rest = lines(&out.contents).into_iter();
    for l in lines(src) {
        assert!(rest.any(|o| o == l), "{l:?} in {}", out.contents);
    }
}

#[test]
fn writing_to_a_formatted_file_only_appends() {
    let opts = WriteOptions::default();
    let files = [
        "",
        "2026-01-01 x\n  assets  10.00 EUR\n  b  -10.00 EUR\n",
        "commodity 1.000,00 EUR\n\n2026-01-09 x\n  assets  10,00 EUR\n  b  -10,00 EUR\n",
        "2026-01-01 x\n    assets  10.00 EUR\n    b\n\n; a last word\n",
        "2026-01-01 x\n    assets  10.00 EUR\n    b\n\ncomment\nnever closed\n\n",
        "2026-01-01 x\n    assets  10.00 EUR\n    b\n\ncommodity X\n    note\n",
    ];
    for loose in files {
        let src = hledger_x::fmt::format(loose);
        let out = integrate(
            &src,
            &[
                entered(5, "five", "why", &[("b", "2 EUR", ""), ("format", "-2 EUR", "so")]),
                entered(2, "two", "", &[("b", "1 EUR", ""), ("a", "", "")]),
            ],
            &opts,
        );
        assert!(out.contents.starts_with(&src), "{}", out.contents);
        assert!(out.contents.len() > src.len());
        assert!(is_formatted(&out.contents));
    }
    // A wider account moves the columns of the file.
    let src = hledger_x::fmt::format(files[1]);
    let out = integrate(
        &src,
        &[entered(5, "five", "", &[("assets:longer", "2 EUR", ""), ("b", "", "")])],
        &opts,
    );
    assert!(!out.contents.starts_with(&src));
    // So does a text that brings a declaration along.
    let out = integrate(
        &src,
        &[entered(5, "five\ncommodity EUR 1.00", "", &[("a", "2 EUR", "")])],
        &opts,
    );
    assert!(!out.contents.starts_with(&src));
}

#[test]
fn sorting_declares_the_same_styles() {
    for s in SAMPLES {
        let once = format_sorted(s);
        let before = scan_ctx(&lines(s));
        let after = scan_ctx(&lines(&once));
        for name in ["$", "EUR", "USD", "CHF", "X", "Y"] {
            assert_eq!(
                format!("{:?}", before.styles.get(name)),
                format!("{:?}", after.styles.get(name)),
                "{name} in {s:?}"
            );
        }
        assert_eq!(format_sorted(&once), once, "{s:?}");
    }
}

#[test]
fn a_formatted_posting_says_what_it_said() {
    let styles = ctx_of(&["commodity $1,000.00", "commodity 1.000,00 EUR", "commodity USD 1_000.0"]);
    let fields = [
        "$1234.5 @ 1234,5EUR",
        "-17 EUR @@ 12USD = 3EUR",
        "5.25 USD ==* $7",
        "1000 XYZ",
        "3 XYZ @ 2 $",
    ];
    let values = [
        ("1523990.25", "EUR"),
        ("-12", "USD"),
        ("5.25", "USD"),
        ("1000", "XYZ"),
        ("6", "$"),
    ];
    for (field, (value, commodity)) in fields.iter().zip(values) {
        let text = format!("2025-01-01 x\n a:b   {field} ; note\n");
        let out = format_with(&text, &styles);
        let line = lines(&out)[1].to_owned();
        assert!(line.starts_with("    a:b  ") && line.ends_with("  ; note"), "{line:?}");
        let written = line["    a:b  ".len()..line.len() - "  ; note".len()].trim().to_owned();
        let before = parse_amount(field, &styles).unwrap();
        let after = parse_amount(&written, &styles).unwrap();
        assert_eq!(before.commodity, after.commodity);
        assert!(before.value == after.value, "{written:?}");
        for read in [before, after] {
            assert_eq!(read.contributes.1, commodity);
            let expected = parse_number(value, Some('.')).unwrap();
            assert!(read.contributes.0 == expected, "{written:?}");
        }
    }
}

#[test]
fn an_unreadable_amount_leaves_the_balance_unknown() {
    let styles = AmountCtx::default();
    assert!(imbalance(&["1 EUR", "-1 EUR"], &styles).is_some_and(|v| v.is_empty()));
    for odd in ["what", "1 EUR @", "1 EUR @ what", "1 234"] {
        assert!(imbalance(&["1 EUR", odd, "-1 EUR"], &styles).is_none(), "{odd}");
    }
    assert!(imbalance(&["1 EUR", "  ", "-1 EUR"], &styles).is_some());
}

#[test]
fn a_file_without_transactions_comes_back_unchanged() {
    let s = "; head\naccount a\n  ; sub\ncommodity 1.00 EUR\nP 2025-01-01 EUR  $1.1 \n\n             include  x.journal\n~ monthly\n    a   1 EUR\n\ncomment\n\n\n 2025-01-01 x\n2025-01-01\n             end comment\n= expr\n  b  *2\n";
    assert_eq!(hledger_x::fmt::format(s), s);
    assert_eq!(hledger_x::fmt::format("P x\n\n\nP y\n"), "P x\n\nP y\n");
    assert_eq!(hledger_x::fmt::format(""), "");
}

#[test]
fn the_widths_of_joined_files_are_the_larger_of_each() {
    let styles = ctx_of(&["commodity $1,000.00"]);
    let one = ["account x", "2025-01-01 x", "    expenses:groceries  $1", "    a"];
    let two = ["2025-01-02 y", "    b  $1234567.5", "    c"];
    let mut both: Vec<&str> = one.to_vec();
    both.extend(two);
    assert_eq!(widths_with(&one, &styles), (18, 2));
    assert_eq!(widths_with(&two, &styles), (1, 12));
    assert_eq!(widths_with(&both, &styles), (18, 12));
}

#[test]
fn a_posting_is_restyled_once() {
    let styles = ctx_of(&["commodity $1,000.00", "commodity 1.000,00 EUR", "commodity USD 1_000.0"]);
    for line in [
        "    a  1234.5 $ @ 2EUR = 3 USD",
        "    a  USD 7 ==* $-8",
        "    a  100 USD extra",
        "    a",
        "    ; note",
    ] {
        for places in [Places::AsWritten, Places::AtLeastDeclared] {
            let once = restyle_with(parse_posting(line), &styles, places);
            let twice = restyle_with(once.duplicate(), &styles, places);
            assert_eq!(once, twice, "{line}");
        }
    }
}

#[test]
fn an_entered_amount_still_says_what_was_typed() {
    let styles = ctx_of(&["commodity $1,000.00", "commodity 1.000,00 EUR", "commodity USD 1_000.000"]);
    for typed in ["4 EUR", "-5EUR @ 1.25 USD", "$3 @@7EUR", "USD -2 @@ 3 EUR = 4$", "7 XYZ", "8"] {
        let stored = restyle_entered(typed, &styles);
        let before = parse_amount(typed, &styles).unwrap();
        let after = parse_amount(&stored, &styles).unwrap();
        assert!(before.value == after.value, "{stored}");
        assert_eq!(before.commodity, after.commodity, "{stored}");
        assert!(before.contributes.0 == after.contributes.0, "{stored}");
        assert_eq!(before.contributes.1, after.contributes.1, "{stored}");
    }
    assert_eq!(restyle_entered("-5EUR @ 1.25 USD", &styles), "-5,00 EUR @ USD 1.250");
    // A product that has to be rounded, of numbers that are not padded.
    let long = "1.00000000000000000001 XYZ @ 1.0000000001 ABC";
    let before = parse_amount(long, &styles).unwrap();
    let after = parse_amount(&restyle_entered(long, &styles), &styles).unwrap();
    assert!(before.contributes.0 == after.contributes.0);
}

#[test]
fn the_edit_distance_is_a_distance() {
    let words = ["", "a", "ab", "ba", "kitten", "sitting", "sittin", "über"];
    for a in words {
        for b in words {
            assert_eq!(levenshtein(a, b), levenshtein(b, a));
            assert_eq!(levenshtein(a, b) == 0, a == b);
            for c in words {
                assert!(levenshtein(a, c) <= levenshtein(a, b) + levenshtein(b, c));
            }
        }
    }
    assert_eq!(levenshtein("kitten", "sitting"), 3);
}
