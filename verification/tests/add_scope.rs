use hledger_x::add::scope::{Alias, Origin, Scope};

fn scope(applies: &[&str], aliases: &[&str]) -> Scope {
    let mut s = Scope::default();
    for a in applies {
        s.push_apply(a, Origin::default());
    }
    for a in aliases {
        s.push_alias(Alias::parse(a, Origin::default()).unwrap());
    }
    s
}

// ---- apply account ----

#[test]
fn nested_applies_stack_and_pop_one_at_a_time() {
    let mut s = scope(&["a", "b"], &[]);
    assert_eq!(s.resolve("checking"), "a:b:checking");
    s.pop_apply();
    assert_eq!(s.resolve("checking"), "a:checking");
    s.pop_apply();
    assert_eq!(s.resolve("checking"), "checking");
    // Popping an empty stack is harmless.
    s.pop_apply();
    assert_eq!(s.resolve("checking"), "checking");
}

#[test]
fn the_prefix_join_is_blind_to_a_trailing_colon() {
    assert_eq!(
        scope(&["assets:"], &[]).resolve("checking"),
        "assets::checking"
    );
}

// ---- alias matching ----

#[test]
fn an_exact_alias_matches_the_whole_name_or_a_segment_bounded_prefix() {
    let s = scope(&[], &["bank=X"]);
    assert_eq!(s.resolve("bank"), "X");
    assert_eq!(s.resolve("bank:sub"), "X:sub");
    assert_eq!(s.resolve("mybank"), "mybank");
    assert_eq!(s.resolve("bankish"), "bankish");
    assert_eq!(s.resolve("a:bank"), "a:bank");
}

#[test]
fn aliases_are_case_sensitive() {
    assert_eq!(scope(&[], &["Bank=assets:x"]).resolve("bank"), "bank");
}

#[test]
fn a_regex_alias_replaces_globally() {
    assert_eq!(
        scope(&[], &["/^exp/=expenses"]).resolve("exp:food"),
        "expenses:food"
    );
    assert_eq!(scope(&[], &["/x/=TWO"]).resolve("xx"), "TWOTWO");
}

#[test]
fn regex_backreferences_use_hledgers_backslash_form() {
    let s = scope(&[], &[r"/^(\w+):bank/=\1:institution"]);
    assert_eq!(s.resolve("assets:bank:giro"), "assets:institution:giro");
}

// ---- the reverse-order rule ----

#[test]
fn aliases_apply_in_reverse_declaration_order() {
    // the identical chain gives `D` declared backwards and
    // `B` declared forwards. This pair is the whole proof.
    assert_eq!(scope(&[], &["/C/=D", "/B/=C", "/A/=B"]).resolve("A"), "D");
    assert_eq!(scope(&[], &["/A/=B", "/B/=C", "/C/=D"]).resolve("A"), "B");
}

#[test]
fn a_later_alias_does_not_see_an_earlier_ones_output() {
    assert_eq!(scope(&[], &["/x/=ONE", "/ONE/=TWO"]).resolve("x"), "ONE");
}

#[test]
fn aliases_matching_different_parts_of_a_name_compose() {
    assert_eq!(scope(&[], &["/a/=A", "/b/=B"]).resolve("a:b"), "A:B");
    assert_eq!(scope(&[], &["/b/=B", "/a/=A"]).resolve("a:b"), "A:B");
}

#[test]
fn the_last_declared_of_two_competing_aliases_wins() {
    assert_eq!(scope(&[], &["/x/=ONE", "/x/=TWO"]).resolve("x"), "TWO");
}

// ---- apply account runs before aliases ----

#[test]
fn aliases_see_the_apply_account_prefix_not_the_raw_name() {
    assert_eq!(scope(&["TOP"], &["sub=REPLACED"]).resolve("sub"), "TOP:sub");
    assert_eq!(
        scope(&["TOP"], &["TOP:sub=REPLACED"]).resolve("sub"),
        "REPLACED"
    );
}

// ---- spelling: search and verify ----

#[test]
fn spelling_is_the_identity_when_nothing_is_active() {
    assert_eq!(
        Scope::default().spell("assets:bank:checking").as_deref(),
        Some("assets:bank:checking")
    );
}

#[test]
fn spelling_strips_the_apply_account_prefix() {
    let s = scope(&["assets:bank"], &[]);
    assert_eq!(s.spell("assets:bank:checking").as_deref(), Some("checking"));
    // And it round-trips, which is the property that matters.
    assert_eq!(s.resolve("checking"), "assets:bank:checking");
}

#[test]
fn the_resolved_name_is_preferred_whenever_it_round_trips() {
    // `assets:checking` does not start with `bank`, so writing it
    // literally reads back unchanged. Writing the *explicit* name is
    // better than rewriting it into the alias, so the identity candidate
    // is tried first.
    let s = scope(&[], &["bank=assets:checking"]);
    assert_eq!(
        s.spell("assets:checking").as_deref(),
        Some("assets:checking")
    );
}

#[test]
fn an_account_the_alias_always_rewrites_is_unreachable_and_refused() {
    // Under `alias x=y` there is no text that reads back as `x` — hledger
    // rewrites every spelling of it. Refusing is the only honest answer;
    // writing `x` would silently enter `y`.
    let s = scope(&[], &["x=y"]);
    assert_eq!(s.spell("x"), None);
    // Its target, by contrast, is writable literally.
    assert_eq!(s.spell("y").as_deref(), Some("y"));
    assert_eq!(s.spell("y:sub").as_deref(), Some("y:sub"));
}

#[test]
fn spelling_undoes_a_prefix_and_an_alias_together() {
    let s = scope(&["TOP"], &["TOP:sub=REPLACED"]);
    // `sub` is the only text that reads back as REPLACED here.
    assert_eq!(s.spell("REPLACED").as_deref(), Some("sub"));
    assert_eq!(s.resolve("sub"), "REPLACED");
}

#[test]
fn spelling_refuses_rather_than_guessing_when_nothing_round_trips() {
    // Under `apply account assets:bank`, no text reads back as a name
    // outside that subtree.
    let s = scope(&["assets:bank"], &[]);
    assert_eq!(s.spell("expenses:groceries"), None);
}

#[test]
fn spelling_never_returns_a_candidate_that_does_not_round_trip() {
    // The exhaustive property: whatever `spell` returns must resolve back.
    let cases = [
        scope(&["a"], &[]),
        scope(&["a", "b"], &[]),
        scope(&[], &["x=y"]),
        scope(&["a"], &["a:x=y"]),
        scope(&[], &["/^q/=Q"]),
        scope(&["p"], &["/^p/=P"]),
    ];
    for s in &cases {
        for target in ["a:b:checking", "y", "Q:z", "P:z", "plain", "a:x"] {
            if let Some(text) = s.spell(target) {
                assert_eq!(
                    s.resolve(&text),
                    target,
                    "spell({target:?}) = {text:?} did not round-trip in {s:?}"
                );
            }
        }
    }
}

#[test]
fn a_literal_regex_alias_is_inverted_and_verified() {
    // `/^exp/=expenses` is self-matching: writing `expenses:food` would
    // read back as `expensesenses:food`, so the identity is rejected and
    // the literal inversion `exp:food` is found and verified instead.
    let s = scope(&[], &["/^exp/=expenses"]);
    assert_eq!(s.resolve("expenses:food"), "expensesenses:food");
    assert_eq!(s.spell("expenses:food").as_deref(), Some("exp:food"));
    assert_eq!(s.resolve("exp:food"), "expenses:food");
}

#[test]
fn a_backreference_alias_leaves_names_it_does_not_touch_writable() {
    // The common case: the alias simply does not match the target, so the
    // resolved name is written literally and reads back unchanged.
    let s = scope(&[], &[r"/^(\w+):bank/=\1:institution"]);
    assert_eq!(
        s.spell("assets:institution:giro").as_deref(),
        Some("assets:institution:giro")
    );
}

#[test]
fn a_non_literal_regex_alias_is_refused_rather_than_guessed() {
    // Self-matching *and* carrying a backreference: the identity fails and
    // substitution cannot undo it, so nothing is proposed. Refusal, not a
    // guess.
    let s = scope(&[], &[r"/^(a+)/=x\1"]);
    assert_eq!(s.resolve("aa"), "xaa");
    assert_eq!(s.spell("aa"), None);
}

// ---- parsing ----

#[test]
fn alias_directive_forms_parse() {
    let o = Origin::default();
    assert!(Alias::parse("bank=assets:checking", o).is_some());
    assert!(Alias::parse("/^exp/=expenses", o).is_some());
    // No `=` at all.
    assert!(Alias::parse("nonsense", o).is_none());
    // An uncompilable regex is ignored, not fatal.
    assert!(Alias::parse("/[/=x", o).is_none());
}

#[test]
fn exact_alias_operands_are_trimmed() {
    let a = Alias::parse("  bank  =  assets:checking  ", Origin::default()).unwrap();
    assert_eq!(a.apply("bank"), "assets:checking");
}

#[test]
fn a_regex_containing_a_slash_splits_at_the_last_boundary() {
    let a = Alias::parse("/a/b/=X", Origin::default()).unwrap();
    assert_eq!(a.apply("a/b"), "X");
}

#[test]
fn active_directives_report_innermost_first() {
    let s = scope(&["outer", "inner"], &["z=y"]);
    let names: Vec<String> = s.active_directives().into_iter().map(|(d, _)| d).collect();
    assert_eq!(
        names,
        vec!["apply account inner", "apply account outer", "alias z=y"]
    );
}
