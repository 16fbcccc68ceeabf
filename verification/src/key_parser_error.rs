//! Error taxonomy of the parser.  Every error is terminal: a failed parse
//! yields no record sequence.

use vstd::prelude::*;

verus! {

/// A directive with an unrecognized key, reported only when unknown-entry
/// tolerance is disabled.  `line` is the offending line after comment
/// handling; `entry` is the unrecognized key text.
#[derive(Debug)]
pub struct KeyUnknownEntryError {
    pub line: String,
    pub entry: String,
}

/// Failure cause of a rejected `Include` directive.  The directive itself is
/// not interpreted yet; the taxonomy is kept for forward compatibility, with
/// the underlying pattern, glob and stream failures carried as messages.
#[derive(Debug)]
pub enum KeyInvalidIncludeErrorDetails {
    Pattern(String),
    Glob(String),
    Io(String),
    HostsInsideHostBlock,
}

/// A structurally invalid `Include` directive.
#[derive(Debug)]
pub struct KeyInvalidIncludeError {
    pub line: String,
    pub details: KeyInvalidIncludeErrorDetails,
}

/// A terminal parse failure.  `Io` carries the message of a failed read of
/// the underlying stream; `UnparseableLine` carries a directive line with no
/// key/value separator.
#[derive(Debug)]
pub enum KeyParseError {
    Io(String),
    UnparseableLine(String),
    UnknownEntry(KeyUnknownEntryError),
    InvalidInclude(KeyInvalidIncludeError),
}

impl From<KeyUnknownEntryError> for KeyParseError {
    fn from(e: KeyUnknownEntryError) -> (r: KeyParseError) {
        KeyParseError::UnknownEntry(e)
    }
}

impl vstd::std_specs::convert::FromSpecImpl<KeyUnknownEntryError> for KeyParseError {
    open spec fn obeys_from_spec() -> bool {
        true
    }

    open spec fn from_spec(e: KeyUnknownEntryError) -> KeyParseError {
        KeyParseError::UnknownEntry(e)
    }
}

impl From<KeyInvalidIncludeError> for KeyParseError {
    fn from(e: KeyInvalidIncludeError) -> (r: KeyParseError) {
        KeyParseError::InvalidInclude(e)
    }
}

impl vstd::std_specs::convert::FromSpecImpl<KeyInvalidIncludeError> for KeyParseError {
    open spec fn obeys_from_spec() -> bool {
        true
    }

    open spec fn from_spec(e: KeyInvalidIncludeError) -> KeyParseError {
        KeyParseError::InvalidInclude(e)
    }
}

} // verus!
