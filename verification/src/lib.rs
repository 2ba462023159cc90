//! Plain text accounting tooling for hledger journals: a format-preserving
//! formatter and the logic of an interactive entry session.
pub mod add;
pub mod amount;
pub mod calendar;
pub mod config;
pub mod conversions;
pub mod date;
pub mod decimal;
pub mod entered;
pub mod equity;
pub mod errors;
pub mod fmt;
pub mod lex;
pub mod numerals;
pub mod paths;
pub mod restyle;
pub mod run;
pub mod runs;
pub mod shown;
pub mod status;
pub mod style;
pub mod subtext;
pub mod syntax;
pub mod text;
pub mod tokens;
