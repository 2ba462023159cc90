use hledger_x::add::write::Insertion;
use hledger_x::config::{layered, Config, ConfigError, HalfLife, Matching, Settings};

fn matching(v: &toml::Value) -> Matching {
    match v.as_str().unwrap() {
        "prefix" => Matching::Prefix,
        "substring" => Matching::Substring,
        "segment" => Matching::Segment,
        "fuzzy" => Matching::Fuzzy,
        other => panic!("{other}"),
    }
}

/// The keys that a file sets.
fn settings(src: &str) -> Settings {
    let table: toml::Table = toml::from_str(src).unwrap();
    let text = |key: &str| table.get(key).map(|v| v.as_str().unwrap().to_owned());
    let flag = |key: &str| table.get(key).map(|v| v.as_bool().unwrap());
    Settings {
        ledger_file: text("ledger_file"),
        format_file: flag("format_file"),
        sort: flag("sort"),
        insertion: text("insertion").map(|v| match v.as_str() {
            "append" => Insertion::Append,
            "chronological" => Insertion::Chronological,
            other => panic!("{other}"),
        }),
        strict: flag("strict"),
        half_life: table.get("half_life_days").map(|v| {
            let days = v.as_integer().unwrap();
            HalfLife {
                shown: days.to_string(),
                positive: days > 0,
            }
        }),
        account_matching: table.get("account_matching").map(matching),
        description_matching: table.get("description_matching").map(matching),
        default_commodity: text("default_commodity"),
        equity_conversion: flag("equity_conversion"),
        equity_conversion_account: text("equity_conversion_account"),
    }
}

fn load_str(user: Option<&str>, local: Option<&str>) -> Result<Config, ConfigError> {
    layered(user.map(settings), local.map(settings))
}

#[test]
fn defaults_match_the_design() {
    let cfg = load_str(None, None).unwrap();
    assert!(cfg.format_file);
    assert!(!cfg.sort);
    assert_eq!(cfg.insertion, Insertion::Append);
    assert!(!cfg.strict);
    assert_eq!(cfg.half_life.shown, "90");
    assert!(cfg.half_life.positive);
    assert_eq!(cfg.account_matching, Matching::Substring);
    assert_eq!(cfg.description_matching, Matching::Substring);
    assert_eq!(cfg.default_commodity, None);
    assert!(!cfg.equity_conversion.is_on());
    assert_eq!(cfg.equity_conversion_account, "equity:conversion");
    assert_eq!(cfg.ledger_file, None);
}

#[test]
fn ledger_file_parses_and_the_local_file_wins() {
    let cfg = load_str(Some("ledger_file = \"/a/main.journal\"\n"), None).unwrap();
    assert_eq!(cfg.ledger_file.as_deref(), Some("/a/main.journal"));

    let cfg = load_str(
        Some("ledger_file = \"/a/main.journal\"\n"),
        Some("ledger_file = \"/b/other.journal\"\n"),
    )
    .unwrap();
    assert_eq!(cfg.ledger_file.as_deref(), Some("/b/other.journal"));
}

#[test]
fn equity_conversion_keys_parse() {
    let cfg = load_str(
        Some("equity_conversion = true\nequity_conversion_account = \"equity:trading\"\n"),
        None,
    )
    .unwrap();
    assert!(cfg.equity_conversion.is_on());
    assert_eq!(cfg.equity_conversion_account, "equity:trading");
}

#[test]
fn an_empty_equity_conversion_account_is_rejected() {
    let err = load_str(Some("equity_conversion_account = \"\"\n"), None).unwrap_err();
    assert_eq!(err.0, "equity_conversion_account must not be empty");
}

#[test]
fn local_config_overrides_user_config_key_by_key() {
    let user = "sort = true\nhalf_life_days = 30\n";
    let local = "half_life_days = 10\n";
    let cfg = load_str(Some(user), Some(local)).unwrap();
    assert!(cfg.sort); // untouched by local
    assert_eq!(cfg.half_life.shown, "10");
}

#[test]
fn enums_parse_from_lowercase() {
    let cfg = load_str(
        Some("strict = true\ninsertion = \"chronological\"\naccount_matching = \"fuzzy\"\n"),
        None,
    )
    .unwrap();
    assert!(cfg.strict);
    assert_eq!(cfg.insertion, Insertion::Chronological);
    assert_eq!(cfg.account_matching, Matching::Fuzzy);
}

#[test]
fn no_format_plus_sort_is_rejected_at_load() {
    let err = load_str(Some("format_file = false\nsort = true\n"), None).unwrap_err();
    assert!(err.0.contains("incompatible"));
    // Even split across the two files.
    let err = load_str(Some("format_file = false\n"), Some("sort = true\n")).unwrap_err();
    assert!(err.0.contains("incompatible"));
}

#[test]
fn nonsense_half_life_is_rejected() {
    assert!(load_str(Some("half_life_days = 0\n"), None).is_err());
    let err = load_str(Some("half_life_days = -3\n"), None).unwrap_err();
    assert_eq!(err.0, "half_life_days must be a positive number, got -3");
}

#[test]
fn write_options_come_from_the_config() {
    let cfg = load_str(Some("sort = true\ninsertion = \"chronological\"\n"), None).unwrap();
    let opts = cfg.write_options();
    assert!(opts.sort);
    assert!(opts.format_file);
    assert_eq!(opts.insertion, Insertion::Chronological);
}
