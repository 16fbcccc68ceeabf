//! Parser and resolution engine for an SSH-client-style configuration format.
//!
//! The parser turns line-oriented text into a sequence of [`Keychain`]
//! records: each `Host` line opens a record holding host-match patterns, and
//! the directive lines that follow fill its entries.  Directives seen before
//! the first `Host` line form an implicit global record whose entries are
//! folded into every returned record without overwriting explicit values.
//! The resolution operations of [`KeysVecExt`] expand multi-pattern records,
//! propagate wildcard-pattern settings into concrete hosts, and deduplicate
//! identical records.
#![verifier::loop_isolation(false)]

pub mod key_parser;
pub mod key_parser_error;
pub mod keychain;
pub mod keychain_entry;
pub mod text;

pub use key_parser::KeyParser;
pub use key_parser_error::KeyParseError;
pub use keychain::Keychain;
pub use keychain::KeysVecExt;
pub use keychain_entry::EntryType;

