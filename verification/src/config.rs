//! Configuration: `~/.config/hledger-x/config.toml`, overridden by a local
//! `.hledger-x.toml` discovered by walking up from the current directory (the
//! same way hledger discovers its own config).

use vstd::prelude::*;
use vstd::string::*;
use crate::add::write::{Insertion, WriteOptions};
use crate::text::{self, CharClass};

verus! {

/// Whether a finished transaction gets equity conversion postings. A
/// two-variant enum rather than a `bool` so the account beside it reads as
/// what it is: only meaningful when conversions are on.
#[derive(Debug, Clone, Copy, PartialEq, Eq, Structural)]
pub enum EquityConversion {
    /// Leave the transaction exactly as entered (the default).
    Off,
    /// Append the postings that cancel the face-value imbalance.
    On,
}

impl Default for EquityConversion {
    fn default() -> (r: Self)
        ensures
            r == EquityConversion::Off,
    {
        EquityConversion::Off
    }
}

impl EquityConversion {
    /// Whether conversions are on.
    #[must_use]
    pub fn is_on(self) -> (r: bool)
        ensures
            r == (self == EquityConversion::On),
    {
        match self {
            EquityConversion::On => true,
            EquityConversion::Off => false,
        }
    }
}

/// A completion matching strategy, as it is configured.
#[derive(Debug, Clone, Copy, PartialEq, Eq, Structural)]
pub enum Matching {
    /// Classic prefix match.
    Prefix,
    /// Middle-of-string match.
    Substring,
    /// Split the query on `:` and prefix-match each account component
    /// (`ex:gro` → `expenses:groceries`).
    Segment,
    /// Subsequence match, ranked by quality.
    Fuzzy,
}

/// How completion matches what is typed.
#[derive(Debug, Clone, Copy, PartialEq, Eq, Structural)]
pub enum Completion {
    /// From the start, each account segment against the one in its place.
    Prefix,
    /// Anywhere.
    Substring,
    /// As a subsequence.
    Fuzzy,
}

impl Matching {
    pub open spec fn completion_spec(self) -> Completion {
        match self {
            Matching::Prefix | Matching::Segment => Completion::Prefix,
            Matching::Substring => Completion::Substring,
            Matching::Fuzzy => Completion::Fuzzy,
        }
    }

    /// The completion that the strategy selects. Prefix completion of an
    /// account matches segment by segment, which is what `segment` asks for.
    #[must_use]
    pub fn completion(self) -> (r: Completion)
        ensures
            r == self.completion_spec(),
    {
        match self {
            Matching::Prefix | Matching::Segment => Completion::Prefix,
            Matching::Substring => Completion::Substring,
            Matching::Fuzzy => Completion::Fuzzy,
        }
    }
}

/// What a [`HalfLife`] says.
#[verifier::ext_equal]
pub struct Period {
    pub shown: Seq<char>,
    pub positive: bool,
}

/// The frecency half-life in days, as far as its number need not be known.
#[derive(Debug, Clone)]
pub struct HalfLife {
    /// The number as shown to the user.
    pub shown: String,
    /// Whether it is a positive finite number.
    pub positive: bool,
}

impl View for HalfLife {
    type V = Period;

    open spec fn view(&self) -> Period {
        Period { shown: self.shown@, positive: self.positive }
    }
}

/// What a [`Config`] says.
#[verifier::ext_equal]
pub struct Setup {
    pub ledger_file: Option<Seq<char>>,
    pub format_file: bool,
    pub sort: bool,
    pub insertion: Insertion,
    pub strict: bool,
    pub half_life: Period,
    pub account_matching: Matching,
    pub description_matching: Matching,
    pub default_commodity: Option<Seq<char>>,
    pub equity_conversion: EquityConversion,
    pub equity_conversion_account: Seq<char>,
}

/// The resolved configuration.
#[derive(Debug, Clone)]
pub struct Config {
    /// The journal file `add` reads and writes when `-f` is not given. Sits
    /// between the flag and `$LEDGER_FILE` in precedence. A relative path is
    /// resolved against the directory of the config file that set it, and a
    /// leading `~/` against `$HOME`.
    pub ledger_file: Option<String>,
    /// Reformat the whole file on write.
    pub format_file: bool,
    /// Also sort transactions by date on write.
    pub sort: bool,
    /// Where new transactions are inserted.
    pub insertion: Insertion,
    /// Strict mode: entering an account or commodity that is not declared
    /// (via `account` / `commodity` directives visible at the insertion
    /// point) asks for confirmation first. Off by default — then undeclared
    /// names are accepted, with a passing note when they are new to the
    /// journal.
    pub strict: bool,
    /// Frecency half-life in days.
    pub half_life: HalfLife,
    /// Matching for the account field.
    pub account_matching: Matching,
    /// Matching for the description field.
    pub description_matching: Matching,
    /// Default commodity offered as editable pre-filled text.
    pub default_commodity: Option<String>,
    /// Append equity conversion postings to a finished transaction whose
    /// postings balance at cost but not at face value (a `@`/`@@` conversion).
    /// Off by default.
    pub equity_conversion: EquityConversion,
    /// The account those postings are written to, by default the one hledger's
    /// `--infer-equity` uses.
    pub equity_conversion_account: String,
}

impl View for Config {
    type V = Setup;

    open spec fn view(&self) -> Setup {
        Setup {
            ledger_file: text::opt_text(self.ledger_file),
            format_file: self.format_file,
            sort: self.sort,
            insertion: self.insertion,
            strict: self.strict,
            half_life: self.half_life@,
            account_matching: self.account_matching,
            description_matching: self.description_matching,
            default_commodity: text::opt_text(self.default_commodity),
            equity_conversion: self.equity_conversion,
            equity_conversion_account: self.equity_conversion_account@,
        }
    }
}

impl Setup {
    pub open spec fn initial() -> Setup {
        Setup {
            ledger_file: None,
            format_file: true,
            sort: false,
            insertion: Insertion::Append,
            strict: false,
            half_life: Period { shown: "90"@, positive: true },
            account_matching: Matching::Substring,
            description_matching: Matching::Substring,
            default_commodity: None,
            equity_conversion: EquityConversion::Off,
            equity_conversion_account: "equity:conversion"@,
        }
    }

    /// A configuration with the keys that a file sets replaced.
    pub open spec fn overridden(self, layer: LayerRead) -> Setup {
        Setup {
            ledger_file: either(layer.ledger_file, self.ledger_file),
            format_file: picked(layer.format_file, self.format_file),
            sort: picked(layer.sort, self.sort),
            insertion: picked(layer.insertion, self.insertion),
            strict: picked(layer.strict, self.strict),
            half_life: picked(layer.half_life, self.half_life),
            account_matching: picked(layer.account_matching, self.account_matching),
            description_matching: picked(layer.description_matching, self.description_matching),
            default_commodity: either(layer.default_commodity, self.default_commodity),
            equity_conversion: conversion_spec(layer.equity_conversion, self.equity_conversion),
            equity_conversion_account: picked(
                layer.equity_conversion_account,
                self.equity_conversion_account,
            ),
        }
    }

    /// What is wrong with a configuration, if anything.
    pub open spec fn problem(self) -> Option<Seq<char>> {
        if !self.format_file && self.sort {
            Some(
                "format_file = false and sort = true are incompatible: sorting rewrites the whole file"@,
            )
        } else if text::trim_spec(self.equity_conversion_account, CharClass::White).len() == 0 {
            Some("equity_conversion_account must not be empty"@)
        } else if !self.half_life.positive {
            Some("half_life_days must be a positive number, got "@ + self.half_life.shown)
        } else {
            None
        }
    }
}

/// A value if there is one, else another.
pub open spec fn picked<T>(o: Option<T>, other: T) -> T {
    match o {
        Some(v) => v,
        None => other,
    }
}

/// A text if there is one, else another that there may be.
pub open spec fn either(o: Option<Seq<char>>, other: Option<Seq<char>>) -> Option<Seq<char>> {
    if o is Some {
        o
    } else {
        other
    }
}

/// Whether conversions are on, where a file may say so.
pub open spec fn conversion_spec(o: Option<bool>, other: EquityConversion) -> EquityConversion {
    match o {
        Some(true) => EquityConversion::On,
        Some(false) => EquityConversion::Off,
        None => other,
    }
}

fn conversion(o: Option<bool>, other: EquityConversion) -> (r: EquityConversion)
    ensures
        r == conversion_spec(o, other),
{
    match o {
        Some(true) => EquityConversion::On,
        Some(false) => EquityConversion::Off,
        None => other,
    }
}

fn set_opt(slot: &mut Option<String>, o: Option<String>)
    ensures
        text::opt_text(*final(slot)) == either(text::opt_text(o), text::opt_text(*old(slot))),
{
    if o.is_some() {
        *slot = o;
    }
}

fn set_text(slot: &mut String, o: Option<String>)
    ensures
        final(slot)@ == picked(text::opt_text(o), old(slot)@),
{
    if let Some(v) = o {
        *slot = v;
    }
}

fn set_half_life(slot: &mut HalfLife, o: Option<HalfLife>)
    ensures
        final(slot)@ == picked(
            match o {
                Some(h) => Some(h@),
                None => None,
            },
            old(slot)@,
        ),
{
    if let Some(v) = o {
        *slot = v;
    }
}

/// A value if there is one, else another.
fn pick<T: Copy>(o: Option<T>, other: T) -> (r: T)
    ensures
        r == picked(o, other),
{
    match o {
        Some(v) => v,
        None => other,
    }
}

/// What a [`Settings`] says.
#[verifier::ext_equal]
pub struct LayerRead {
    pub ledger_file: Option<Seq<char>>,
    pub format_file: Option<bool>,
    pub sort: Option<bool>,
    pub insertion: Option<Insertion>,
    pub strict: Option<bool>,
    pub half_life: Option<Period>,
    pub account_matching: Option<Matching>,
    pub description_matching: Option<Matching>,
    pub default_commodity: Option<Seq<char>>,
    pub equity_conversion: Option<bool>,
    pub equity_conversion_account: Option<Seq<char>>,
}

/// The keys that one configuration file sets.
#[derive(Debug, Clone)]
pub struct Settings {
    pub ledger_file: Option<String>,
    pub format_file: Option<bool>,
    pub sort: Option<bool>,
    pub insertion: Option<Insertion>,
    pub strict: Option<bool>,
    pub half_life: Option<HalfLife>,
    pub account_matching: Option<Matching>,
    pub description_matching: Option<Matching>,
    pub default_commodity: Option<String>,
    pub equity_conversion: Option<bool>,
    pub equity_conversion_account: Option<String>,
}

impl View for Settings {
    type V = LayerRead;

    open spec fn view(&self) -> LayerRead {
        LayerRead {
            ledger_file: text::opt_text(self.ledger_file),
            format_file: self.format_file,
            sort: self.sort,
            insertion: self.insertion,
            strict: self.strict,
            half_life: match self.half_life {
                Some(h) => Some(h@),
                None => None,
            },
            account_matching: self.account_matching,
            description_matching: self.description_matching,
            default_commodity: text::opt_text(self.default_commodity),
            equity_conversion: self.equity_conversion,
            equity_conversion_account: text::opt_text(self.equity_conversion_account),
        }
    }
}

/// A configuration problem worth stopping for.
#[derive(Debug, Clone)]
pub struct ConfigError(pub String);

impl Default for Config {
    fn default() -> (r: Self)
        ensures
            r@ == Setup::initial(),
    {
        Config {
            ledger_file: None,
            format_file: true,
            sort: false,
            insertion: Insertion::Append,
            strict: false,
            half_life: HalfLife { shown: "90".to_owned(), positive: true },
            account_matching: Matching::Substring,
            description_matching: Matching::Substring,
            default_commodity: None,
            equity_conversion: EquityConversion::Off,
            equity_conversion_account: "equity:conversion".to_owned(),
        }
    }
}

impl Config {
    /// The write options this config selects.
    #[must_use]
    pub fn write_options(&self) -> (r: WriteOptions)
        ensures
            r == (WriteOptions {
                format_file: self@.format_file,
                sort: self@.sort,
                insertion: self@.insertion,
            }),
    {
        WriteOptions {
            format_file: self.format_file,
            sort: self.sort,
            insertion: self.insertion,
        }
    }

    /// Override the keys that a configuration file sets.
    pub fn apply(&mut self, layer: Settings)
        ensures
            final(self)@ == old(self)@.overridden(layer@),
    {
        set_opt(&mut self.ledger_file, layer.ledger_file);
        self.format_file = pick(layer.format_file, self.format_file);
        self.sort = pick(layer.sort, self.sort);
        self.insertion = pick(layer.insertion, self.insertion);
        self.strict = pick(layer.strict, self.strict);
        set_half_life(&mut self.half_life, layer.half_life);
        self.account_matching = pick(layer.account_matching, self.account_matching);
        self.description_matching = pick(layer.description_matching, self.description_matching);
        set_opt(&mut self.default_commodity, layer.default_commodity);
        self.equity_conversion = conversion(layer.equity_conversion, self.equity_conversion);
        set_text(&mut self.equity_conversion_account, layer.equity_conversion_account);
    }

    /// Refuse a configuration that cannot be meant.
    ///
    /// # Errors
    ///
    /// The incoherent `format_file = false` + `sort = true` combination, an
    /// empty conversion account, or a half-life that is no positive number.
    pub fn validate(&self) -> (r: Result<(), ConfigError>)
        ensures
            (match r {
                Ok(_) => None,
                Err(e) => Some(e.0@),
            }) == self@.problem(),
    {
        if !self.format_file && self.sort {
            return Err(
                ConfigError(
                    "format_file = false and sort = true are incompatible: sorting rewrites the whole file".to_owned(),
                ),
            );
        }
        if text::trim(self.equity_conversion_account.as_str(), CharClass::White).is_empty() {
            return Err(ConfigError("equity_conversion_account must not be empty".to_owned()));
        }
        if !self.half_life.positive {
            return Err(
                ConfigError(
                    text::cat(
                        "half_life_days must be a positive number, got ",
                        self.half_life.shown.as_str(),
                    ),
                ),
            );
        }
        Ok(())
    }
}

/// The configuration of a user file and a local file, the local one overriding
/// the user one key by key.
///
/// # Errors
///
/// See [`Config::validate`].
pub fn layered(user: Option<Settings>, local: Option<Settings>) -> (r: Result<Config, ConfigError>)
    ensures
        ({
            let base = match user {
                Some(l) => Setup::initial().overridden(l@),
                None => Setup::initial(),
            };
            let whole = match local {
                Some(l) => base.overridden(l@),
                None => base,
            };
            match r {
                Ok(c) => whole.problem() is None && c@ == whole,
                Err(e) => whole.problem() == Some(e.0@),
            }
        }),
{
    let mut cfg = Config::default();
    if let Some(l) = user {
        cfg.apply(l);
    }
    if let Some(l) = local {
        cfg.apply(l);
    }
    match cfg.validate() {
        Ok(_) => Ok(cfg),
        Err(e) => Err(e),
    }
}

/// A key that the local file sets wins over the user file, and one that it
/// leaves alone keeps what the user file says.
pub proof fn the_local_file_wins_key_by_key(base: Setup, user: LayerRead, local: LayerRead)
    ensures
        local.strict is Some ==> base.overridden(user).overridden(local).strict
            == local.strict->0,
        local.strict is None ==> base.overridden(user).overridden(local).strict
            == base.overridden(user).strict,
        local.insertion is Some ==> base.overridden(user).overridden(local).insertion
            == local.insertion->0,
        local.insertion is None ==> base.overridden(user).overridden(local).insertion
            == base.overridden(user).insertion,
{
}

} // verus!
