//! Interactive entry: the field state machine, completion and live preview.
pub mod complete;
pub mod matching;
pub mod distance;
pub mod draft;
pub mod editing;
pub mod field;
pub mod context;
pub mod session;
pub mod submit;
pub mod promises;
pub mod preview;
pub mod plain;
pub mod term;
pub mod frame;
