use hledger_x::add::ui::complete::{complete, filter_ranked, match_quality, Shape};
use hledger_x::config::Completion;

/// The corpus the design scenarios were written against.
const POOL: &[&str] = &[
    "assets:bank:checking",
    "assets:bank:savings",
    "assets:cash",
    "expenses:groceries",
    "expenses:gifts",
    "expenses:travel:train",
    "expenses:travel:taxi",
    "income:salary",
];

fn hits(style: Completion, query: &str) -> Vec<&'static str> {
    let mut v = filter_ranked(style, Shape::Account, query, POOL);
    v.sort_unstable();
    v
}

fn tab(style: Completion, query: &str) -> Option<String> {
    complete(style, Shape::Account, query, POOL)
}

// ---- prefix: anchored, no gaps ----

#[test]
fn prefix_is_anchored_segment_by_segment() {
    assert_eq!(
        hits(Completion::Prefix, "ex:gro"),
        vec!["expenses:groceries"]
    );
    assert_eq!(
        hits(Completion::Prefix, "ass:b"),
        vec!["assets:bank:checking", "assets:bank:savings"]
    );
    // A query may be shorter than the candidate, never longer.
    assert!(hits(Completion::Prefix, "a:b:c:d").is_empty());
}

#[test]
fn prefix_allows_no_gaps_leading_or_otherwise() {
    // `gro` is not a leading segment of anything.
    assert!(hits(Completion::Prefix, "gro").is_empty());
    // `s` would have to skip `bank` to reach `savings`.
    assert!(hits(Completion::Prefix, "a:s").is_empty());
    assert_eq!(
        hits(Completion::Prefix, "a:b:s"),
        vec!["assets:bank:savings"]
    );
}

#[test]
fn prefix_tab_completes() {
    assert_eq!(
        tab(Completion::Prefix, "i").as_deref(),
        Some("income:salary")
    );
    assert_eq!(tab(Completion::Prefix, "ass").as_deref(), Some("assets:"));
    assert_eq!(
        tab(Completion::Prefix, "ass:b").as_deref(),
        Some("assets:bank:")
    );
    assert_eq!(
        tab(Completion::Prefix, "ass:b:c").as_deref(),
        Some("assets:bank:checking")
    );
    // The shared `t` of train/taxi comes along.
    assert_eq!(
        tab(Completion::Prefix, "ex:t").as_deref(),
        Some("expenses:travel:t")
    );
    assert_eq!(
        tab(Completion::Prefix, "ex:g").as_deref(),
        Some("expenses:g")
    );
}

// ---- substring: gaps allowed, within a segment ----

#[test]
fn substring_completes_a_unique_mid_word_match_outright() {
    assert_eq!(
        tab(Completion::Substring, "check").as_deref(),
        Some("assets:bank:checking")
    );
    assert_eq!(
        tab(Completion::Substring, "ash").as_deref(),
        Some("assets:cash")
    );
    assert_eq!(
        tab(Completion::Substring, "ift").as_deref(),
        Some("expenses:gifts")
    );
}

#[test]
fn substring_fills_in_segments_the_user_never_typed() {
    // `an` matches only the `bank` segment; both matches agree on the
    // path above it.
    assert_eq!(
        tab(Completion::Substring, "an").as_deref(),
        Some("assets:bank:")
    );
    assert_eq!(
        tab(Completion::Substring, "bank:ing").as_deref(),
        Some("assets:bank:")
    );
    assert_eq!(
        tab(Completion::Substring, "sets:cash").as_deref(),
        Some("assets:cash")
    );
}

#[test]
fn substring_never_matches_across_a_colon() {
    assert!(hits(Completion::Substring, "tsbank").is_empty());
    // Segment-wise, the same characters do match.
    assert_eq!(
        hits(Completion::Substring, "ts:ba"),
        vec!["assets:bank:checking", "assets:bank:savings"]
    );
}

#[test]
fn a_typed_segment_that_constrains_nothing_is_dropped() {
    // `as:a` and `assets:` select the same three accounts, so replacing
    // the buffer wholesale loses nothing — the trailing `a` was doing no
    // work.
    assert_eq!(
        hits(Completion::Substring, "as:a"),
        vec!["assets:bank:checking", "assets:bank:savings", "assets:cash"]
    );
    assert_eq!(
        tab(Completion::Substring, "as:a").as_deref(),
        Some("assets:")
    );
}

#[test]
fn gaps_reach_deep_and_a_short_query_can_stay_ambiguous() {
    // `a:a` also picks up `travel:train` and `travel:taxi`, so there is
    // no unanimous prefix and Tab defers to the menu.
    assert_eq!(hits(Completion::Substring, "a:a").len(), 5);
    assert_eq!(tab(Completion::Substring, "a:a"), None);
}

// ---- fuzzy: subsequence, within a segment ----

#[test]
fn fuzzy_matches_within_a_segment_only() {
    assert_eq!(
        hits(Completion::Fuzzy, "ckng"),
        vec!["assets:bank:checking"]
    );
    assert_eq!(hits(Completion::Fuzzy, "sl"), vec!["income:salary"]);
    // `asbk` spans `assets:bank` — deliberately no longer a match.
    assert!(hits(Completion::Fuzzy, "asbk").is_empty());
    assert_eq!(
        hits(Completion::Fuzzy, "as:bk"),
        vec!["assets:bank:checking", "assets:bank:savings"]
    );
}

#[test]
fn fuzzy_tab_completes() {
    assert_eq!(
        tab(Completion::Fuzzy, "ckng").as_deref(),
        Some("assets:bank:checking")
    );
    assert_eq!(
        tab(Completion::Fuzzy, "bnk").as_deref(),
        Some("assets:bank:")
    );
    assert_eq!(
        tab(Completion::Fuzzy, "exp:trn").as_deref(),
        Some("expenses:travel:train")
    );
}

#[test]
fn fuzzy_ranks_by_quality_but_never_completes_to_the_top_hit() {
    let ranked = filter_ranked(Completion::Fuzzy, Shape::Account, "ss", POOL);
    assert!(ranked.len() > 1);
    // Ambiguous: the menu opens, nothing is inserted.
    assert_eq!(tab(Completion::Fuzzy, "ss"), None);
}

// ---- shared Tab rules ----

#[test]
fn tab_makes_no_progress_when_there_is_nothing_to_add() {
    // Already exactly a candidate.
    assert_eq!(tab(Completion::Prefix, "assets:cash"), None);
    // Ambiguous with no shared characters beyond what is typed.
    assert_eq!(tab(Completion::Prefix, "assets:"), None);
    // No match at all — the buffer is never destroyed.
    assert_eq!(tab(Completion::Prefix, "zzz"), None);
}

#[test]
fn an_empty_query_opens_the_menu_rather_than_completing() {
    assert_eq!(tab(Completion::Substring, ""), None);
    assert_eq!(complete(Completion::Prefix, Shape::Plain, "", POOL), None);
}

#[test]
fn completion_never_widens_the_match_set() {
    // With a third sibling under `assets:bank`, `ing` is load-bearing:
    // resolving to `assets:bank:` would pull `cash` back in.
    let pool: &[&str] = &[
        "assets:bank:checking",
        "assets:bank:savings",
        "assets:bank:cash",
    ];
    let matched = filter_ranked(Completion::Substring, Shape::Account, "bank:ing", pool);
    assert_eq!(matched.len(), 2);
    assert_eq!(
        complete(Completion::Substring, Shape::Account, "bank:ing", pool),
        None
    );
}

#[test]
fn a_candidate_that_is_a_prefix_of_another_completes_without_a_trailing_colon() {
    let pool: &[&str] = &["assets:cash", "assets:cash:wallet"];
    assert_eq!(
        complete(Completion::Substring, Shape::Account, "cash", pool).as_deref(),
        Some("assets:cash")
    );
}

#[test]
fn matching_is_case_insensitive_and_inserts_the_candidates_case() {
    assert_eq!(
        tab(Completion::Substring, "CHECK").as_deref(),
        Some("assets:bank:checking")
    );
}

// ---- plain shape: descriptions and commodities ----

#[test]
fn plain_candidates_are_never_segmented() {
    let pool: &[&str] = &["Rewe", "Rewe: refund", "Rossmann"];
    // A colon in a description is ordinary text, not a segment break.
    assert_eq!(
        filter_ranked(Completion::Substring, Shape::Plain, "e: ref", pool),
        vec!["Rewe: refund"]
    );
    // …and it completes across one, since there is no segment to stop at.
    assert_eq!(
        complete(Completion::Substring, Shape::Plain, "e: ref", pool).as_deref(),
        Some("Rewe: refund")
    );
}

#[test]
fn plain_completion_stops_at_the_common_prefix() {
    let pool: &[&str] = &["Rewe", "Rewe refund", "Rossmann"];
    assert_eq!(
        complete(Completion::Prefix, Shape::Plain, "Re", pool).as_deref(),
        Some("Rewe")
    );
    assert_eq!(complete(Completion::Prefix, Shape::Plain, "R", pool), None);
}

#[test]
fn filter_preserves_frecency_order_except_fuzzy() {
    let ranked = vec!["expenses:groceries", "expenses:gifts", "assets:bank"];
    assert_eq!(
        filter_ranked(Completion::Substring, Shape::Account, "e", &ranked),
        vec!["expenses:groceries", "expenses:gifts", "assets:bank"]
    );
    assert_eq!(
        filter_ranked(Completion::Substring, Shape::Account, "gi", &ranked),
        vec!["expenses:gifts"]
    );
}

#[test]
fn completing_keeps_the_same_candidates() {
    for query in ["ass", "an", "ex:t", "as:a"] {
        let before = filter_ranked(Completion::Substring, Shape::Account, query, POOL);
        if let Some(longer) = tab(Completion::Substring, query) {
            let after = filter_ranked(Completion::Substring, Shape::Account, &longer, POOL);
            assert_eq!(after, before, "{query}");
        }
    }
}

#[test]
fn quality_is_given_to_matches_alone() {
    let q = |query: &str, candidate: &str| {
        match_quality(Completion::Fuzzy, Shape::Plain, query, candidate)
    };
    assert!(q("rw", "Rewe").is_some());
    assert!(q("wr", "Rewe").is_none());
    assert!(q("", "Rewe").is_some());
}
