//! The directive tag: a case-insensitive classification of a configuration
//! key into a known variant or an `Unknown` fallback carrying the original
//! key text verbatim.

use vstd::prelude::*;

use crate::text::{chars_to_string, lower_seq, lower_vec, str_chars, chars_eq};

verus! {

/// Mathematical value of a directive tag: the payload of an unknown tag is
/// its key text as a character sequence.
pub ghost enum TagV {
    Unknown(Seq<char>),
    Host,
    Match,
    Password,
}

/// A configuration key, classified.  Known keys are matched without regard
/// to ASCII case; any other key is kept verbatim in `Unknown`.
#[derive(Debug, Eq, Hash)]
pub enum EntryType {
    Unknown(String),
    Host,
    Match,
    Password,
}

impl View for EntryType {
    type V = TagV;

    open spec fn view(&self) -> TagV {
        match self {
            EntryType::Unknown(s) => TagV::Unknown(s@),
            EntryType::Host => TagV::Host,
            EntryType::Match => TagV::Match,
            EntryType::Password => TagV::Password,
        }
    }
}

impl PartialEq for EntryType {
    fn eq(&self, other: &EntryType) -> (r: bool) {
        match (self, other) {
            (EntryType::Unknown(a), EntryType::Unknown(b)) => a.eq(b),
            (EntryType::Host, EntryType::Host) => true,
            (EntryType::Match, EntryType::Match) => true,
            (EntryType::Password, EntryType::Password) => true,
            _ => false,
        }
    }
}

impl vstd::std_specs::cmp::PartialEqSpecImpl for EntryType {
    open spec fn obeys_eq_spec() -> bool {
        true
    }

    open spec fn eq_spec(&self, other: &EntryType) -> bool {
        self@ == other@
    }
}

impl Clone for EntryType {
    fn clone(&self) -> (r: EntryType)
        ensures
            r == self,
    {
        match self {
            EntryType::Unknown(s) => EntryType::Unknown(s.clone()),
            EntryType::Host => EntryType::Host,
            EntryType::Match => EntryType::Match,
            EntryType::Password => EntryType::Password,
        }
    }
}

/// The tag a key classifies to, comparing its ASCII-lowered form against the
/// known directive names.
pub open spec fn tag_of_key(k: Seq<char>) -> TagV {
    if lower_seq(k) == "host"@ {
        TagV::Host
    } else if lower_seq(k) == "match"@ {
        TagV::Match
    } else if lower_seq(k) == "password"@ {
        TagV::Password
    } else {
        TagV::Unknown(k)
    }
}

/// The display name of a tag: the fixed name of a known tag, the stored key
/// text of an unknown one.
pub open spec fn display_of_tag(t: TagV) -> Seq<char> {
    match t {
        TagV::Unknown(s) => s,
        TagV::Host => "Host"@,
        TagV::Match => "Match"@,
        TagV::Password => "Password"@,
    }
}

impl EntryType {
    /// Classifies a key.  Always succeeds: an unrecognized key yields
    /// `Unknown` with the original text.
    pub fn from_key(text: &str) -> (r: EntryType)
        ensures
            r@ == tag_of_key(text@),
    {
        let k = str_chars(text);
        let low = lower_vec(&k);
        if chars_eq(&low, &str_chars("host")) {
            EntryType::Host
        } else if chars_eq(&low, &str_chars("match")) {
            EntryType::Match
        } else if chars_eq(&low, &str_chars("password")) {
            EntryType::Password
        } else {
            EntryType::Unknown(chars_to_string(&k))
        }
    }

    /// The tag's display name, used for diagnostics.
    pub fn to_display_name(&self) -> (r: String)
        ensures
            r@ == display_of_tag(self@),
    {
        match self {
            EntryType::Unknown(s) => s.clone(),
            EntryType::Host => chars_to_string(&str_chars("Host")),
            EntryType::Match => chars_to_string(&str_chars("Match")),
            EntryType::Password => chars_to_string(&str_chars("Password")),
        }
    }
}

} // verus!
