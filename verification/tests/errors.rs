use std::fmt;
use std::io;

use hledger_x::errors::{config_error, io_reason, reason, suggest, toml_error, Failure};
use serde::de::{Deserialize, Deserializer, EnumAccess, MapAccess, VariantAccess, Visitor};

#[test]
fn io_kinds_read_as_english() {
    let e = io::Error::from(io::ErrorKind::NotFound);
    assert_eq!(io_reason(&e), "no such file");
    let e = io::Error::from(io::ErrorKind::PermissionDenied);
    assert_eq!(io_reason(&e), "permission denied");
}

#[test]
fn errno_never_reaches_the_user() {
    // The real OS error, as reading a file would hand it over.
    for code in 1..40 {
        let e = io::Error::from_raw_os_error(code);
        let msg = io_reason(&e);
        assert!(!msg.contains("os error"), "{msg}");
    }
}

#[test]
fn unrecognised_kinds_lose_their_errno() {
    let e = io::Error::other("Broken pipe (os error 32)");
    assert_eq!(io_reason(&e), "broken pipe");
}

/// The settings of a small file, read without unknown keys.
struct Raw;

const FIELDS: &[&str] = &["format_file", "sort", "insertion"];
const VARIANTS: &[&str] = &["append", "chronological"];

struct Key(String);

struct KeyVisitor;

impl<'de> Visitor<'de> for KeyVisitor {
    type Value = Key;

    fn expecting(&self, f: &mut fmt::Formatter<'_>) -> fmt::Result {
        f.write_str("field identifier")
    }

    fn visit_str<E: serde::de::Error>(self, v: &str) -> Result<Key, E> {
        if FIELDS.contains(&v) {
            Ok(Key(v.to_owned()))
        } else {
            Err(E::unknown_field(v, FIELDS))
        }
    }
}

impl<'de> Deserialize<'de> for Key {
    fn deserialize<D: Deserializer<'de>>(d: D) -> Result<Self, D::Error> {
        d.deserialize_identifier(KeyVisitor)
    }
}

struct Variant;

struct VariantVisitor;

impl<'de> Visitor<'de> for VariantVisitor {
    type Value = Variant;

    fn expecting(&self, f: &mut fmt::Formatter<'_>) -> fmt::Result {
        f.write_str("variant identifier")
    }

    fn visit_str<E: serde::de::Error>(self, v: &str) -> Result<Variant, E> {
        if VARIANTS.contains(&v) {
            Ok(Variant)
        } else {
            Err(E::unknown_variant(v, VARIANTS))
        }
    }
}

impl<'de> Deserialize<'de> for Variant {
    fn deserialize<D: Deserializer<'de>>(d: D) -> Result<Self, D::Error> {
        d.deserialize_identifier(VariantVisitor)
    }
}

struct Insertion;

struct InsertionVisitor;

impl<'de> Visitor<'de> for InsertionVisitor {
    type Value = Insertion;

    fn expecting(&self, f: &mut fmt::Formatter<'_>) -> fmt::Result {
        f.write_str("enum Insertion")
    }

    fn visit_enum<A: EnumAccess<'de>>(self, data: A) -> Result<Insertion, A::Error> {
        let (_, rest) = data.variant::<Variant>()?;
        rest.unit_variant()?;
        Ok(Insertion)
    }
}

impl<'de> Deserialize<'de> for Insertion {
    fn deserialize<D: Deserializer<'de>>(d: D) -> Result<Self, D::Error> {
        d.deserialize_enum("Insertion", VARIANTS, InsertionVisitor)
    }
}

struct RawVisitor;

impl<'de> Visitor<'de> for RawVisitor {
    type Value = Raw;

    fn expecting(&self, f: &mut fmt::Formatter<'_>) -> fmt::Result {
        f.write_str("struct Raw")
    }

    fn visit_map<A: MapAccess<'de>>(self, mut map: A) -> Result<Raw, A::Error> {
        while let Some(Key(key)) = map.next_key::<Key>()? {
            if key == "insertion" {
                let _: Option<Insertion> = map.next_value()?;
            } else {
                let _: Option<bool> = map.next_value()?;
            }
        }
        Ok(Raw)
    }
}

impl<'de> Deserialize<'de> for Raw {
    fn deserialize<D: Deserializer<'de>>(d: D) -> Result<Self, D::Error> {
        d.deserialize_struct("Raw", FIELDS, RawVisitor)
    }
}

fn render(src: &str) -> String {
    let e = toml::from_str::<Raw>(src).err().unwrap();
    toml_error(src, ".hledger-x.toml", &e)
}

#[test]
fn unknown_setting_suggests_the_near_miss() {
    let out = render("formatfile = true\n");
    assert_eq!(
        out,
        ".hledger-x.toml, line 1: unknown setting `formatfile`\n      \
         formatfile = true\n  (did you mean `format_file`?)"
    );
}

#[test]
fn a_wild_typo_gets_the_list_instead_of_a_guess() {
    let out = render("wibble = true\n");
    assert!(out.contains("unknown setting `wibble`"), "{out}");
    assert!(out.contains("valid settings are"), "{out}");
    assert!(!out.contains("did you mean"), "{out}");
}

#[test]
fn wrong_type_says_what_it_wanted_and_what_it_saw() {
    let out = render("sort = \"yes\"\n");
    assert!(
        out.contains("expected true or false, but found the text \"yes\""),
        "{out}"
    );
}

#[test]
fn bad_enum_value_lists_the_alternatives() {
    let out = render("insertion = \"sideways\"\n");
    assert!(out.contains("`sideways` is not a valid value"), "{out}");
    assert!(out.contains("`append`"), "{out}");
}

#[test]
fn a_near_miss_value_is_suggested_singular_for_plural_included() {
    let out = render("insertion = \"Chronological\"\n");
    assert!(out.contains("did you mean `chronological`?"), "{out}");
    // The mistake the plural check names invite: `payee` for `payees`.
    assert_eq!(
        suggest("payee", "`accounts`, `commodities`, `payees`"),
        Some("payees")
    );
    assert_eq!(
        suggest("accounts", "`accounts`, `commodities`"),
        Some("accounts")
    );
    assert_eq!(suggest("wibble", "`accounts`, `commodities`"), None);
}

#[test]
fn no_rustc_diagnostic_art_survives() {
    for src in [
        "formatfile = true\n",
        "sort = \"yes\"\n",
        "sort =\n",
        "insertion = \"sideways\"\n",
        "[oops\n",
    ] {
        let e = toml::from_str::<toml::Table>(src)
            .err()
            .map(|e| toml_error(src, "c.toml", &e));
        let out = e.unwrap_or_default();
        assert!(!out.contains("  |"), "gutter art in: {out}");
        assert!(!out.contains("^^"), "caret art in: {out}");
        assert!(!out.contains("invalid type"), "serde jargon in: {out}");
    }
}

#[test]
fn the_offending_line_is_reported_and_echoed() {
    let out = render("sort = true\nformat_file = true\nwibble = 1\n");
    assert!(out.contains("line 3"), "{out}");
    assert!(out.contains("wibble = 1"), "{out}");
}

#[test]
fn each_failure_has_its_words() {
    let say = |k: Failure| reason(k, "Odd thing (os error 7)");
    assert_eq!(say(Failure::NotFound), "no such file");
    assert_eq!(say(Failure::PermissionDenied), "permission denied");
    assert_eq!(say(Failure::IsADirectory), "is a directory");
    assert_eq!(
        say(Failure::NotADirectory),
        "a parent of this path is not a directory"
    );
    assert_eq!(say(Failure::StorageFull), "the disk is full");
    assert_eq!(say(Failure::ReadOnlyFilesystem), "the filesystem is read-only");
    assert_eq!(say(Failure::InvalidData), "not valid UTF-8 text");
    assert_eq!(say(Failure::Other), "odd thing");
    assert_eq!(reason(Failure::Other, ""), "");
    assert_eq!(reason(Failure::Other, "Ärger"), "ärger");
}

#[test]
fn a_setting_of_the_add_section_is_pointed_there() {
    let out = config_error(
        "strict = true\n",
        "c.toml",
        "unknown field `strict`, expected one of `ledger_file`, `sort`, `add`",
        Some(0),
    );
    assert_eq!(
        out,
        "c.toml, line 1: unknown setting `strict`\n      strict = true\n  \
         (`strict` belongs in the [add] section)"
    );
}

#[test]
fn numbers_and_booleans_are_named_as_such() {
    let said = |m: &str| config_error("", "c", m, None);
    assert_eq!(
        said("invalid type: integer `7`, expected a boolean"),
        "c: expected true or false, but found the number 7"
    );
    assert_eq!(
        said("invalid type: boolean `true`, expected a string"),
        "c: expected text in quotes, but found the value true"
    );
    assert_eq!(
        said("invalid type: map, expected a sequence"),
        "c: expected a list, but found map"
    );
    assert_eq!(said("something else"), "c: something else");
}

#[test]
fn a_place_behind_wide_text_is_found_by_its_bytes() {
    // The first line is three characters and five bytes long.
    let src = "äöx\r\nnext line\n";
    assert_eq!(config_error(src, "c", "m", Some(5)), "c, line 1: m\n      äöx");
    assert_eq!(config_error(src, "c", "m", Some(6)), "c, line 2: m\n      next line");
    assert_eq!(config_error(src, "c", "m", Some(100)), "c: m");
}
