use hledger_x::amount::AmountCtx;
use hledger_x::fmt::tree::{format_opts_at, is_formatted_at, merged_styles, widths_with_at};
use hledger_x::fmt::{lines, scan_ctx, Options};

const PLAIN: Options = Options {
    sort: false,
    explicit: false,
};

fn ctx(directive: &str) -> AmountCtx {
    scan_ctx(&[directive])
}

#[test]
fn what_an_include_brings_in_holds_from_its_line_on() {
    let src = "2025-01-01 a\n    x  10EUR\n\ninclude conf\n\n2025-01-02 b\n    x  10EUR\n";
    let inherited = [(0, AmountCtx::default()), (3, ctx("commodity 1.00 EUR"))];
    assert_eq!(
        format_opts_at(src, &inherited, PLAIN),
        "2025-01-01 a\n    x  10EUR\n\ninclude conf\n\n2025-01-02 b\n    x     10 EUR\n"
    );
    assert_eq!(widths_with_at(&lines(src), &inherited), (1, 5));
}

#[test]
fn what_the_tree_declares_ahead_holds_throughout() {
    let src = "2025-01-01 a\n    x  10EUR\n";
    let inherited = [(0, ctx("commodity 1.00 EUR"))];
    let out = format_opts_at(src, &inherited, PLAIN);
    assert_eq!(out, "2025-01-01 a\n    x  10 EUR\n");
    assert!(is_formatted_at(&out, &inherited));
    assert!(!is_formatted_at(src, &inherited));
    assert!(is_formatted_at(src, &[]));
}

#[test]
fn the_files_own_directives_win() {
    let src = "commodity EUR 1.0\n\n2025-01-01 a\n    x  10EUR\n";
    let inherited = [(0, ctx("commodity 1.00 EUR"))];
    assert_eq!(
        format_opts_at(src, &inherited, PLAIN),
        "commodity EUR 1.0\n\n2025-01-01 a\n    x  EUR 10\n"
    );
}

#[test]
fn includes_keep_their_contexts_when_lines_move() {
    // Sorting moves transactions, and gaps come and go, but an include stays
    // between the runs it parts. One inside a comment block is prose.
    let src = "2025-03-01 b\n    x  1EUR\n2025-01-01 a\n    x  2EUR\ncomment\ninclude prose\nend comment\ninclude conf\n2025-02-01 c\n    x  3EUR\n";
    let inherited = [(0, AmountCtx::default()), (7, ctx("commodity 1.00 EUR"))];
    let out = format_opts_at(
        src,
        &inherited,
        Options {
            sort: true,
            explicit: false,
        },
    );
    assert_eq!(
        out,
        "2025-01-01 a\n    x  2EUR\n\n2025-03-01 b\n    x  1EUR\n\ncomment\ninclude prose\nend comment\ninclude conf\n\n2025-02-01 c\n    x     3 EUR\n"
    );
}

#[test]
fn a_file_in_a_tree_stays_as_it_is_formatted() {
    let src = "2025-03-01 b\n  x  1EUR\n  y\n2025-01-01 a\n  x  2EUR\n  z  3USD\n  y\ninclude one\n2025-02-01 c\n  x  $3 @ 1.5EUR\n  y\ncomment\ninclude prose\nend comment\ninclude two\ndecimal-mark ,\n2025-01-02 d\n  x  1234,5EUR\n  y  = 7USD\n  z\n";
    let inherited = [
        (0, AmountCtx::default()),
        (7, ctx("commodity 1.000,00 EUR")),
        (14, ctx("commodity EUR 1,000.000")),
    ];
    for own in ["", "commodity USD 1_000.00\n", "D $1,000.0\n"] {
        let text = format!("{own}{src}");
        for sort in [false, true] {
            for explicit in [false, true] {
                for n in 0..=inherited.len() {
                    let opts = Options { sort, explicit };
                    let once = format_opts_at(&text, &inherited[..n], opts);
                    assert_eq!(format_opts_at(&once, &inherited[..n], opts), once, "{once}");
                }
            }
        }
    }
}

#[test]
fn an_include_that_brings_nothing_changes_nothing() {
    let src = "include a\ninclude b\n\n2025-01-01 a\n    x  10EUR\n";
    let inherited = [(0, ctx("commodity 1.00 EUR"))];
    assert!(format_opts_at(src, &inherited, PLAIN).contains("10 EUR"));
    let merged = merged_styles(&[
        (0, ctx("commodity 1.00 EUR")),
        (4, ctx("commodity $1.0")),
    ]);
    assert!(merged.styles.get("EUR").is_some() && merged.styles.get("$").is_some());
}
