//! The interactive entry session: reading a journal for completion, deciding
//! what an entry says, and placing it in its file.
pub mod scope;
pub mod renaming;
pub mod parser;
pub mod walk;
pub mod reading;
pub mod filemap;
pub mod write;
pub mod integrate;
pub mod append;
pub mod insertion;
pub mod listed;
pub mod recovery;
pub mod replay;
pub mod ui;
pub mod index;
pub mod frecency;
