use hledger_x::paths::{display_path, join, resolve_path, state_dir, user_config};

#[test]
fn a_relative_ledger_file_resolves_against_the_config_directory() {
    assert_eq!(
        resolve_path("main.journal", None, Some("/acc")),
        "/acc/main.journal"
    );
    assert_eq!(
        resolve_path("/abs/main.journal", None, Some("/acc")),
        "/abs/main.journal"
    );
}

#[test]
fn a_tilde_stands_for_the_home_directory() {
    assert_eq!(resolve_path("~/j/x", Some("/home/u"), Some("/acc")), "/home/u/j/x");
    assert_eq!(resolve_path("~//x", Some("/home/u/"), None), "/home/u/x");
    assert_eq!(resolve_path("~u/x", Some("/home/u"), Some("/acc")), "/acc/~u/x");
    assert_eq!(resolve_path("~/x", None, Some("/acc")), "/acc/~/x");
    assert_eq!(resolve_path("x", Some("/home/u"), None), "x");
}

#[test]
fn a_path_below_the_working_directory_is_shown_from_there() {
    let cwd = Some("/work/acc");
    assert_eq!(display_path("/work/acc/main.journal", cwd), "main.journal");
    assert_eq!(display_path("/work/acc/./sub//x", cwd), "sub//x");
    assert_eq!(display_path("/work//acc/x/", cwd), "x");
    assert_eq!(display_path("/work/acc", cwd), "");
    assert_eq!(display_path("/work/account/x", cwd), "/work/account/x");
    assert_eq!(display_path("/work/x", cwd), "/work/x");
    assert_eq!(display_path("sub/x", cwd), "sub/x");
    assert_eq!(display_path("/work/acc/x", None), "/work/acc/x");
    assert_eq!(display_path("/x", Some("/")), "x");
}

#[test]
fn state_and_configuration_have_their_places() {
    assert_eq!(state_dir(Some("/s"), Some("/h")), "/s/hledger-x");
    assert_eq!(state_dir(None, Some("/h")), "/h/.local/state/hledger-x");
    assert_eq!(state_dir(None, None), "./.local/state/hledger-x");
    assert_eq!(
        user_config(Some("/c/"), None),
        Some("/c/hledger-x/config.toml".to_owned())
    );
    assert_eq!(
        user_config(None, Some("/h")),
        Some("/h/.config/hledger-x/config.toml".to_owned())
    );
    assert_eq!(user_config(None, None), None);
    assert_eq!(join("", "x"), "x");
    assert_eq!(join("a", "/x"), "/x");
}
