//! The configuration record ("keychain"): an ordered list of host-match
//! patterns plus a mapping from directive tag to value, and the resolution
//! operations that expand, propagate and deduplicate a sequence of records.

use vstd::prelude::*;
use vstd::map::*;
use vstd::pervasive::VecAdditionalExecFns;

use crate::keychain_entry::{EntryType, TagV};
use crate::text::{
    chars_to_string, has_char, has_host_marker, str_chars, string_has_host_marker, vec_has_char,
};

verus! {

/// One parsed directive: a tag and its value.
pub type Entry = (EntryType, String);

/// Mathematical value of a configuration record.
pub ghost struct KeychainV {
    /// Host-match patterns, in source order.
    pub patterns: Seq<Seq<char>>,
    /// Directive entries; keys are unique, last write wins.
    pub entries: Map<TagV, Seq<char>>,
}

/// The mapping an association list of entries stands for: a tag is bound
/// when some pair holds it, and bound to that pair's value.
pub open spec fn entries_map(s: Seq<Entry>) -> Map<TagV, Seq<char>> {
    Map::new(
        |t: TagV| exists|i: int| 0 <= i < s.len() && (#[trigger] s[i]).0@ == t,
        |t: TagV|
            {
                let i = choose|i: int| 0 <= i < s.len() && (#[trigger] s[i]).0@ == t;
                s[i].1@
            },
    )
}

/// No two pairs of the list carry the same tag.
pub open spec fn unique_tags(s: Seq<Entry>) -> bool {
    forall|i: int, j: int|
        0 <= i < j < s.len() ==> (#[trigger] s[i]).0@ != (#[trigger] s[j]).0@
}

/// The views of a vector of pattern strings.
pub open spec fn pattern_views(s: Seq<String>) -> Seq<Seq<char>> {
    s.map_values(|p: String| p@)
}

pub proof fn lemma_entries_lookup(s: Seq<Entry>, i: int)
    requires
        unique_tags(s),
        0 <= i < s.len(),
    ensures
        entries_map(s).contains_key(s[i].0@),
        entries_map(s)[s[i].0@] == s[i].1@,
{
    let t = s[i].0@;
    let j = choose|j: int| 0 <= j < s.len() && (#[trigger] s[j]).0@ == t;
    if i < j {
        assert(s[i].0@ != s[j].0@);
    } else if j < i {
        assert(s[j].0@ != s[i].0@);
    }
}

pub proof fn lemma_entries_push_absent(s: Seq<Entry>, p: Entry)
    requires
        unique_tags(s),
        forall|i: int| 0 <= i < s.len() ==> (#[trigger] s[i]).0@ != p.0@,
    ensures
        unique_tags(s.push(p)),
        entries_map(s.push(p)) == entries_map(s).insert(p.0@, p.1@),
{
    let s2 = s.push(p);
    assert forall|i: int, j: int| 0 <= i < j < s2.len() implies (#[trigger] s2[i]).0@
        != (#[trigger] s2[j]).0@ by {
        if j < s.len() {
            assert(s2[i] == s[i] && s2[j] == s[j]);
        } else {
            assert(s2[j] == p && s2[i] == s[i]);
        }
    }
    let m1 = entries_map(s2);
    let m2 = entries_map(s).insert(p.0@, p.1@);
    assert forall|t: TagV| m1.contains_key(t) implies m2.contains_key(t) by {
        let i = choose|i: int| 0 <= i < s2.len() && (#[trigger] s2[i]).0@ == t;
        if i < s.len() {
            assert(s[i].0@ == t);
        }
    }
    assert forall|t: TagV| m2.contains_key(t) implies m1.contains_key(t) by {
        if t == p.0@ {
            assert(s2[s.len() as int].0@ == t);
        } else {
            let i = choose|i: int| 0 <= i < s.len() && (#[trigger] s[i]).0@ == t;
            assert(s2[i].0@ == t);
        }
    }
    assert forall|t: TagV| m1.contains_key(t) implies m1[t] == m2[t] by {
        let i = choose|i: int| 0 <= i < s2.len() && (#[trigger] s2[i]).0@ == t;
        lemma_entries_lookup(s2, i);
        if t == p.0@ {
            assert(i == s.len());
        } else {
            assert(i < s.len());
            lemma_entries_lookup(s, i);
        }
    }
    assert(m1 =~= m2);
}

pub proof fn lemma_entries_remove(s: Seq<Entry>, i: int)
    requires
        unique_tags(s),
        0 <= i < s.len(),
    ensures
        unique_tags(s.remove(i)),
        entries_map(s.remove(i)) == entries_map(s).remove(s[i].0@),
{
    let s2 = s.remove(i);
    assert forall|a: int, b: int| 0 <= a < b < s2.len() implies (#[trigger] s2[a]).0@
        != (#[trigger] s2[b]).0@ by {
        let a0 = if a < i { a } else { a + 1 };
        let b0 = if b < i { b } else { b + 1 };
        assert(s2[a] == s[a0] && s2[b] == s[b0]);
        assert(s[a0].0@ != s[b0].0@);
    }
    let m1 = entries_map(s2);
    let m2 = entries_map(s).remove(s[i].0@);
    assert forall|t: TagV| m1.contains_key(t) implies m2.contains_key(t) && m1[t] == m2[t] by {
        let a = choose|a: int| 0 <= a < s2.len() && (#[trigger] s2[a]).0@ == t;
        let a0 = if a < i { a } else { a + 1 };
        assert(s2[a] == s[a0]);
        if a0 < i {
            assert(s[a0].0@ != s[i].0@);
        } else if i < a0 {
            assert(s[i].0@ != s[a0].0@);
        }
        lemma_entries_lookup(s, a0);
        lemma_entries_lookup(s2, a);
    }
    assert forall|t: TagV| m2.contains_key(t) implies m1.contains_key(t) by {
        let a0 = choose|a0: int| 0 <= a0 < s.len() && (#[trigger] s[a0]).0@ == t;
        let a = if a0 < i { a0 } else { a0 - 1 };
        assert(a0 != i);
        assert(s2[a] == s[a0]);
    }
    assert(m1 =~= m2);
}

/// A configuration record: host-match patterns plus directive entries.
#[derive(Debug)]
pub struct Keychain {
    patterns: Vec<String>,
    entries: Vec<Entry>,
}

impl View for Keychain {
    type V = KeychainV;

    closed spec fn view(&self) -> KeychainV {
        KeychainV { patterns: pattern_views(self.patterns@), entries: entries_map(self.entries@) }
    }
}

impl Keychain {
    /// Internal validity: entry tags are unique.
    pub closed spec fn wf(&self) -> bool {
        unique_tags(self.entries@)
    }

    /// A record with the given patterns and no entries.
    pub fn new(patterns: Vec<String>) -> (r: Keychain)
        ensures
            r@.patterns == pattern_views(patterns@),
            r@.entries == Map::<TagV, Seq<char>>::empty(),
            r.wf(),
    {
        let r = Keychain { patterns, entries: Vec::new() };
        proof {
            assert(entries_map(r.entries@) =~= Map::<TagV, Seq<char>>::empty());
        }
        r
    }

    /// Inserts an entry; an entry already present under the same tag is
    /// overwritten.
    pub fn update(&mut self, entry: Entry)
        requires
            old(self).wf(),
        ensures
            final(self).wf(),
            final(self)@.patterns == old(self)@.patterns,
            final(self)@.entries == old(self)@.entries.insert(entry.0@, entry.1@),
    {
        let n = self.entries.len();
        let mut i: usize = 0;
        while i < n
            invariant
                0 <= i <= n,
                n == self.entries.len(),
                *self == *old(self),
                forall|j: int| 0 <= j < i ==> (#[trigger] self.entries@[j]).0@ != entry.0@,
            decreases n - i,
        {
            if self.entries[i].0 == entry.0 {
                proof {
                    lemma_entries_remove(self.entries@, i as int);
                    let removed = self.entries@.remove(i as int);
                    assert forall|k: int| 0 <= k < removed.len() implies (#[trigger] removed[k]).0@
                        != entry.0@ by {
                        let k0 = if k < i { k } else { k + 1 };
                        assert(removed[k] == self.entries@[k0]);
                        if k0 < i {
                            assert(self.entries@[k0].0@ != entry.0@);
                        } else {
                            assert(i < k0);
                            assert(self.entries@[i as int].0@ == entry.0@);
                            assert(self.entries@[i as int].0@ != self.entries@[k0].0@);
                        }
                    }
                    lemma_entries_push_absent(removed, entry);
                    assert(entries_map(removed.push(entry)) =~= entries_map(
                        self.entries@,
                    ).insert(entry.0@, entry.1@));
                }
                self.entries.remove(i);
                self.entries.push(entry);
                return;
            }
            i = i + 1;
        }
        proof {
            lemma_entries_push_absent(self.entries@, entry);
        }
        self.entries.push(entry);
    }

    /// Whether some entry carries the given tag.
    pub fn contains_tag(&self, tag: &EntryType) -> (r: bool)
        requires
            self.wf(),
        ensures
            r == self@.entries.contains_key(tag@),
    {
        let n = self.entries.len();
        let mut i: usize = 0;
        while i < n
            invariant
                0 <= i <= n,
                n == self.entries.len(),
                forall|j: int| 0 <= j < i ==> (#[trigger] self.entries@[j]).0@ != tag@,
            decreases n - i,
        {
            if self.entries[i].0 == *tag {
                proof {
                    lemma_entries_lookup(self.entries@, i as int);
                }
                return true;
            }
            i = i + 1;
        }
        false
    }

    /// The value stored under the given tag, if any.
    pub fn get(&self, entry: &EntryType) -> (r: Option<String>)
        requires
            self.wf(),
        ensures
            match r {
                Some(v) => self@.entries.contains_key(entry@) && v@ == self@.entries[entry@],
                None => !self@.entries.contains_key(entry@),
            },
    {
        let n = self.entries.len();
        let mut i: usize = 0;
        while i < n
            invariant
                0 <= i <= n,
                n == self.entries.len(),
                forall|j: int| 0 <= j < i ==> (#[trigger] self.entries@[j]).0@ != entry@,
            decreases n - i,
        {
            if self.entries[i].0 == *entry {
                proof {
                    lemma_entries_lookup(self.entries@, i as int);
                }
                return Some(self.entries[i].1.clone());
            }
            i = i + 1;
        }
        None
    }

    /// The record's host-match patterns.
    pub fn get_patterns(&self) -> (r: &Vec<String>)
        ensures
            pattern_views(r@) == self@.patterns,
    {
        &self.patterns
    }

    /// Whether the record holds no entries.
    pub fn is_empty(&self) -> (r: bool)
        requires
            self.wf(),
        ensures
            r == (self@.entries == Map::<TagV, Seq<char>>::empty()),
    {
        let r = self.entries.len() == 0;
        proof {
            if self.entries@.len() == 0 {
                assert(entries_map(self.entries@) =~= Map::<TagV, Seq<char>>::empty());
            } else {
                lemma_entries_lookup(self.entries@, 0);
                assert(self@.entries != Map::<TagV, Seq<char>>::empty());
            }
        }
        r
    }

    /// Appends the other record's patterns to this one's.
    pub fn extend_patterns(&mut self, keys: &Keychain)
        requires
            old(self).wf(),
        ensures
            final(self).wf(),
            final(self)@.patterns == old(self)@.patterns + keys@.patterns,
            final(self)@.entries == old(self)@.entries,
    {
        let n = keys.patterns.len();
        let mut i: usize = 0;
        while i < n
            invariant
                0 <= i <= n,
                n == keys.patterns.len(),
                self.entries@ == old(self).entries@,
                self.patterns@ == old(self).patterns@ + keys.patterns@.take(i as int),
            decreases n - i,
        {
            self.patterns.push(keys.patterns[i].clone());
            i = i + 1;
            assert(self.patterns@ =~= old(self).patterns@ + keys.patterns@.take(i as int));
        }
        proof {
            assert(keys.patterns@.take(n as int) =~= keys.patterns@);
            assert(pattern_views(old(self).patterns@ + keys.patterns@) =~= pattern_views(
                old(self).patterns@,
            ) + pattern_views(keys.patterns@));
        }
    }

    /// Inserts every entry of the other record, overwriting shared tags.
    pub fn extend_entries(&mut self, keys: &Keychain)
        requires
            old(self).wf(),
            keys.wf(),
        ensures
            final(self).wf(),
            final(self)@.patterns == old(self)@.patterns,
            final(self)@.entries == old(self)@.entries.union_prefer_right(keys@.entries),
    {
        let n = keys.entries.len();
        let mut i: usize = 0;
        proof {
            assert(old(self)@.entries.union_prefer_right(entries_map(keys.entries@.take(0)))
                =~= old(self)@.entries);
        }
        while i < n
            invariant
                0 <= i <= n,
                n == keys.entries.len(),
                keys.wf(),
                self.wf(),
                self@.patterns == old(self)@.patterns,
                self@.entries == old(self)@.entries.union_prefer_right(
                    entries_map(keys.entries@.take(i as int)),
                ),
            decreases n - i,
        {
            let tag = keys.entries[i].0.clone();
            let value = keys.entries[i].1.clone();
            proof {
                let prefix = keys.entries@.take(i as int);
                assert(forall|k: int|
                    0 <= k < prefix.len() ==> (#[trigger] prefix[k]).0@ != keys.entries@[
                        i as int
                    ].0@);
                lemma_entries_push_absent(prefix, (tag, value));
                assert(prefix.push((tag, value)) =~= keys.entries@.take(i + 1));
                assert(old(self)@.entries.union_prefer_right(
                    entries_map(prefix).insert(tag@, value@),
                ) =~= old(self)@.entries.union_prefer_right(entries_map(prefix)).insert(
                    tag@,
                    value@,
                ));
            }
            self.update((tag, value));
            i = i + 1;
        }
        proof {
            assert(keys.entries@.take(n as int) =~= keys.entries@);
        }
    }

    /// Inserts every entry of the other record whose tag this record does
    /// not already define; existing values are never overwritten.
    pub fn extend_if_not_contained(&mut self, keys: &Keychain)
        requires
            old(self).wf(),
            keys.wf(),
        ensures
            final(self).wf(),
            final(self)@.patterns == old(self)@.patterns,
            final(self)@.entries == keys@.entries.union_prefer_right(old(self)@.entries),
    {
        let n = keys.entries.len();
        let mut i: usize = 0;
        proof {
            assert(entries_map(keys.entries@.take(0)).union_prefer_right(old(self)@.entries)
                =~= old(self)@.entries);
        }
        while i < n
            invariant
                0 <= i <= n,
                n == keys.entries.len(),
                keys.wf(),
                self.wf(),
                self@.patterns == old(self)@.patterns,
                self@.entries == entries_map(keys.entries@.take(i as int)).union_prefer_right(
                    old(self)@.entries,
                ),
            decreases n - i,
        {
            let tag = keys.entries[i].0.clone();
            proof {
                let prefix = keys.entries@.take(i as int);
                assert(forall|k: int|
                    0 <= k < prefix.len() ==> (#[trigger] prefix[k]).0@ != keys.entries@[
                        i as int
                    ].0@);
                lemma_entries_push_absent(prefix, keys.entries@[i as int]);
                assert(prefix.push(keys.entries@[i as int]) =~= keys.entries@.take(i + 1));
            }
            if !self.contains_tag(&tag) {
                let value = keys.entries[i].1.clone();
                self.update((tag, value));
            }
            proof {
                let prefix = keys.entries@.take(i as int);
                let t = keys.entries@[i as int].0@;
                let v = keys.entries@[i as int].1@;
                assert(self@.entries =~= entries_map(prefix).insert(t, v).union_prefer_right(
                    old(self)@.entries,
                ));
            }
            i = i + 1;
        }
        proof {
            assert(keys.entries@.take(n as int) =~= keys.entries@);
        }
    }
}

impl Clone for Keychain {
    fn clone(&self) -> (r: Keychain)
        ensures
            r@ == self@,
            r.wf() == self.wf(),
    {
        let patterns = self.patterns.clone();
        proof {
            assert forall|i: int| 0 <= i < patterns@.len() implies patterns@[i]
                == self.patterns@[i] by {
            }
            assert(patterns@ =~= self.patterns@);
        }
        let n = self.entries.len();
        let mut entries: Vec<Entry> = Vec::new();
        let mut i: usize = 0;
        while i < n
            invariant
                0 <= i <= n,
                n == self.entries.len(),
                entries@ == self.entries@.take(i as int),
            decreases n - i,
        {
            entries.push((self.entries[i].0.clone(), self.entries[i].1.clone()));
            i = i + 1;
            assert(entries@ =~= self.entries@.take(i as int));
        }
        proof {
            assert(self.entries@.take(n as int) =~= self.entries@);
        }
        Keychain { patterns, entries }
    }
}


/// Regex fragment one pattern character translates to: a literal dot is
/// escaped, `*` and `?` become their regex forms, every other character
/// stands as itself.
pub open spec fn rule_char(c: char) -> Seq<char> {
    if c == '.' {
        seq!['\\', '.']
    } else if c == '*' {
        seq!['.', '*']
    } else if c == '?' {
        seq!['.']
    } else {
        seq![c]
    }
}

/// The pattern with its glob syntax translated to regex syntax.
pub open spec fn glob_tx(s: Seq<char>) -> Seq<char>
    decreases s.len(),
{
    if s.len() == 0 {
        Seq::empty()
    } else {
        glob_tx(s.drop_last()) + rule_char(s.last())
    }
}

/// A pattern is rule-bearing if it holds a wildcard or negation character.
pub open spec fn is_rule_bearing(p: Seq<char>) -> bool {
    has_char(p, '*') || has_char(p, '?') || has_char(p, '!')
}

/// The anchored matching rule a rule-bearing pattern builds, and whether it
/// is negated.
pub open spec fn rule_of(p: Seq<char>) -> (Seq<char>, bool) {
    let q = glob_tx(p);
    let neg = q.len() > 0 && q[0] == '!';
    let body = if neg {
        q.drop_first()
    } else {
        q
    };
    (seq!['^'] + body + seq!['$'], neg)
}

/// The rules of a pattern list: one per rule-bearing pattern, in order.
pub open spec fn rules_of(ps: Seq<Seq<char>>) -> Seq<(Seq<char>, bool)>
    decreases ps.len(),
{
    if ps.len() == 0 {
        Seq::empty()
    } else {
        rules_of(ps.drop_last()) + if is_rule_bearing(ps.last()) {
            seq![rule_of(ps.last())]
        } else {
            Seq::empty()
        }
    }
}

/// The views of a vector of built rules.
pub open spec fn rule_views(s: Seq<(String, bool)>) -> Seq<(Seq<char>, bool)> {
    s.map_values(|r: (String, bool)| (r.0@, r.1))
}

/// Whether the regex crate accepts `pattern` as a valid expression.
pub uninterp spec fn regex_accepts(pattern: Seq<char>) -> bool;

/// Whether the expression `pattern` matches somewhere inside `text`.
pub uninterp spec fn regex_match(pattern: Seq<char>, text: Seq<char>) -> bool;

/// Relies on `regex::Regex::new`: whether a pattern compiles depends on the
/// pattern text alone.
#[verifier::external_body]
fn rule_compiles(pattern: &str) -> (r: bool)
    ensures
        r == regex_accepts(pattern@),
{
    regex::Regex::new(pattern).is_ok()
}

/// Relies on `regex::Regex::new` and `regex::Regex::is_match`: whether a
/// compiled expression matches depends on the pattern and haystack texts
/// alone, and `new` returns `Err` exactly on the patterns it rejects.
#[verifier::external_body]
fn rule_is_match(pattern: &str, text: &str) -> (r: Option<bool>)
    ensures
        regex_accepts(pattern@) ==> r == Some(regex_match(pattern@, text@)),
        !regex_accepts(pattern@) ==> r is None,
{
    match regex::Regex::new(pattern) {
        Ok(re) => Some(re.is_match(text)),
        Err(_) => None,
    }
}

/// Translates glob syntax to regex syntax, character by character.
fn glob_translate(v: &Vec<char>) -> (r: Vec<char>)
    ensures
        r@ == glob_tx(v@),
{
    let n = v.len();
    let mut r: Vec<char> = Vec::new();
    let mut i: usize = 0;
    proof {
        assert(v@.take(0) =~= Seq::<char>::empty());
    }
    while i < n
        invariant
            0 <= i <= n,
            n == v.len(),
            r@ == glob_tx(v@.take(i as int)),
        decreases n - i,
    {
        let c = v[i];
        if c == '.' {
            r.push('\\');
            r.push('.');
        } else if c == '*' {
            r.push('.');
            r.push('*');
        } else if c == '?' {
            r.push('.');
        } else {
            r.push(c);
        }
        proof {
            assert(v@.take(i + 1).drop_last() =~= v@.take(i as int));
            assert(v@.take(i + 1).last() == v@[i as int]);
            assert(r@ =~= glob_tx(v@.take(i as int)) + rule_char(v@[i as int]));
        }
        i = i + 1;
    }
    proof {
        assert(v@.take(n as int) =~= v@);
    }
    r
}

impl Keychain {
    /// The matching rules of the record's rule-bearing patterns, each with
    /// its negation flag.
    pub fn matching_pattern_rules(&self) -> (r: Vec<(String, bool)>)
        ensures
            rule_views(r@) == rules_of(self@.patterns),
    {
        let mut r: Vec<(String, bool)> = Vec::new();
        let n = self.patterns.len();
        let mut i: usize = 0;
        proof {
            assert(rule_views(r@) =~= rules_of(pattern_views(self.patterns@).take(0)));
        }
        while i < n
            invariant
                0 <= i <= n,
                n == self.patterns.len(),
                rule_views(r@) == rules_of(pattern_views(self.patterns@).take(i as int)),
            decreases n - i,
        {
            let pc = str_chars(self.patterns[i].as_str());
            let ghost pviews = pattern_views(self.patterns@);
            proof {
                assert(pviews.take(i + 1).drop_last() =~= pviews.take(i as int));
                assert(pviews.take(i + 1).last() == pc@);
            }
            let bearing = vec_has_char(&pc, '*') || vec_has_char(&pc, '?') || vec_has_char(
                &pc,
                '!',
            );
            if bearing {
                let q = glob_translate(&pc);
                let neg = q.len() > 0 && q[0] == '!';
                let start: usize = if neg {
                    1
                } else {
                    0
                };
                let mut rv: Vec<char> = Vec::new();
                rv.push('^');
                let m = q.len();
                let mut k: usize = start;
                while k < m
                    invariant
                        start <= k <= m,
                        m == q.len(),
                        rv@ == seq!['^'] + q@.subrange(start as int, k as int),
                    decreases m - k,
                {
                    rv.push(q[k]);
                    k = k + 1;
                    assert(rv@ =~= seq!['^'] + q@.subrange(start as int, k as int));
                }
                rv.push('$');
                proof {
                    let body = if neg {
                        q@.drop_first()
                    } else {
                        q@
                    };
                    assert(q@.subrange(start as int, m as int) =~= body);
                    assert(rv@ =~= seq!['^'] + body + seq!['$']);
                }
                r.push((chars_to_string(&rv), neg));
                proof {
                    assert(rule_views(r@) =~= rules_of(pviews.take(i + 1)));
                }
            } else {
                proof {
                    assert(rule_views(r@) =~= rules_of(pviews.take(i + 1)));
                }
            }
            i = i + 1;
        }
        proof {
            assert(pattern_views(self.patterns@).take(n as int) =~= pattern_views(
                self.patterns@,
            ));
        }
        r
    }

    /// Whether some entry value holds the per-hostname expansion token `%h`.
    pub fn has_expansion_marker(&self) -> (r: bool)
        requires
            self.wf(),
        ensures
            r == entries_has_marker(self@.entries),
    {
        let n = self.entries.len();
        let mut i: usize = 0;
        while i < n
            invariant
                0 <= i <= n,
                n == self.entries.len(),
                forall|j: int|
                    0 <= j < i ==> !has_host_marker((#[trigger] self.entries@[j]).1@),
            decreases n - i,
        {
            if string_has_host_marker(&self.entries[i].1) {
                proof {
                    lemma_entries_lookup(self.entries@, i as int);
                }
                return true;
            }
            i = i + 1;
        }
        proof {
            if entries_has_marker(self@.entries) {
                let t = choose|t: TagV|
                    self@.entries.contains_key(t) && has_host_marker(self@.entries[t]);
                let j = choose|j: int|
                    0 <= j < self.entries@.len() && (#[trigger] self.entries@[j]).0@ == t;
                lemma_entries_lookup(self.entries@, j);
            }
        }
        false
    }

    /// Whether the two records hold identical entries.
    pub fn entries_equal(&self, other: &Keychain) -> (r: bool)
        requires
            self.wf(),
            other.wf(),
        ensures
            r == (self@.entries == other@.entries),
    {
        let fwd = entries_subset(self, other);
        let bwd = entries_subset(other, self);
        proof {
            if fwd && bwd {
                assert forall|t: TagV| #[trigger] self@.entries.contains_key(t)
                    <==> other@.entries.contains_key(t) by {
                    if self@.entries.contains_key(t) {
                        assert(other@.entries.contains_key(t));
                    }
                    if other@.entries.contains_key(t) {
                        assert(self@.entries.contains_key(t));
                    }
                }
                assert(self@.entries =~= other@.entries);
            }
        }
        fwd && bwd
    }
}

/// Whether every entry of `a` is present in `b` with the same value.
fn entries_subset(a: &Keychain, b: &Keychain) -> (r: bool)
    requires
        a.wf(),
        b.wf(),
    ensures
        r == (forall|t: TagV|
            #[trigger] a@.entries.contains_key(t) ==> b@.entries.contains_key(t) && b@.entries[t]
                == a@.entries[t]),
{
    let n = a.entries.len();
    let mut i: usize = 0;
    while i < n
        invariant
            0 <= i <= n,
            n == a.entries.len(),
            forall|j: int|
                0 <= j < i ==> {
                    let t = (#[trigger] a.entries@[j]).0@;
                    b@.entries.contains_key(t) && b@.entries[t] == a.entries@[j].1@
                },
        decreases n - i,
    {
        proof {
            lemma_entries_lookup(a.entries@, i as int);
        }
        match b.get(&a.entries[i].0) {
            Some(v) => {
                if !v.eq(&a.entries[i].1) {
                    proof {
                        assert(a@.entries.contains_key(a.entries@[i as int].0@));
                    }
                    return false;
                }
            },
            None => {
                proof {
                    assert(a@.entries.contains_key(a.entries@[i as int].0@));
                }
                return false;
            },
        }
        i = i + 1;
    }
    proof {
        assert forall|t: TagV| a@.entries.contains_key(t) implies b@.entries.contains_key(t)
            && b@.entries[t] == a@.entries[t] by {
            let j = choose|j: int|
                0 <= j < a.entries@.len() && (#[trigger] a.entries@[j]).0@ == t;
            lemma_entries_lookup(a.entries@, j);
        }
    }
    true
}

/// Whether some entry value of the mapping holds the token `%h`.
pub open spec fn entries_has_marker(m: Map<TagV, Seq<char>>) -> bool {
    exists|t: TagV| #[trigger] m.contains_key(t) && has_host_marker(m[t])
}

/// The views of a vector of records.
pub open spec fn views_of(s: Seq<Keychain>) -> Seq<KeychainV> {
    s.map_values(|k: Keychain| k@)
}

/// Every record of the vector is internally valid.
pub open spec fn all_wf(s: Seq<Keychain>) -> bool {
    forall|i: int| 0 <= i < s.len() ==> (#[trigger] s[i]).wf()
}

/// Copies a record sequence element by element.
fn clone_records(v: &Vec<Keychain>) -> (r: Vec<Keychain>)
    requires
        all_wf(v@),
    ensures
        views_of(r@) == views_of(v@),
        all_wf(r@),
        r@.len() == v@.len(),
{
    let n = v.len();
    let mut r: Vec<Keychain> = Vec::new();
    let mut i: usize = 0;
    while i < n
        invariant
            0 <= i <= n,
            n == v.len(),
            r@.len() == i,
            all_wf(r@),
            forall|j: int| 0 <= j < i ==> (#[trigger] r@[j])@ == v@[j]@,
        decreases n - i,
    {
        r.push(v[i].clone());
        i = i + 1;
    }
    proof {
        assert(views_of(r@) =~= views_of(v@));
    }
    r
}

/// A record spread into one record per pattern; a record with no patterns
/// passes through unchanged.
pub open spec fn spread_one(k: KeychainV) -> Seq<KeychainV> {
    if k.patterns.len() == 0 {
        seq![k]
    } else {
        Seq::new(
            k.patterns.len(),
            |i: int| KeychainV { patterns: seq![k.patterns[i]], entries: k.entries },
        )
    }
}

/// Every record spread, in order.
pub open spec fn spread_spec(s: Seq<KeychainV>) -> Seq<KeychainV>
    decreases s.len(),
{
    if s.len() == 0 {
        Seq::empty()
    } else {
        spread_spec(s.drop_last()) + spread_one(s.last())
    }
}

/// Whether the record carries any matching rule.
pub open spec fn has_rules(k: KeychainV) -> bool {
    rules_of(k.patterns).len() > 0
}

/// Whether some rule of the set applies to the pattern string: a non-negated
/// rule applies on a match, a negated rule on a non-match.
pub open spec fn rule_applies(rs: Seq<(Seq<char>, bool)>, p: Seq<char>) -> bool {
    exists|m: int| 0 <= m < rs.len() && (#[trigger] rs[m]).1 != regex_match(rs[m].0, p)
}

/// Entries of record `j` after the first `i` records of the spread sequence
/// have been considered as rule sources.
pub open spec fn ap_entries(sp: Seq<KeychainV>, j: int, i: int) -> Map<TagV, Seq<char>>
    decreases i,
{
    if i <= 0 {
        sp[j].entries
    } else {
        let prev = ap_entries(sp, j, i - 1);
        if i - 1 != j && has_rules(sp[i - 1]) && rule_applies(
            rules_of(sp[i - 1].patterns),
            sp[j].patterns[0],
        ) {
            sp[i - 1].entries.union_prefer_right(prev)
        } else {
            prev
        }
    }
}

/// Record `j` of the spread sequence after every rule source was considered.
pub open spec fn ap_record(sp: Seq<KeychainV>, j: int) -> KeychainV {
    KeychainV { patterns: sp[j].patterns, entries: ap_entries(sp, j, sp.len() as int) }
}

/// The spread sequence with every concrete record's entries completed.
pub open spec fn resolved_records(sp: Seq<KeychainV>) -> Seq<KeychainV> {
    Seq::new(
        sp.len(),
        |j: int|
            if has_rules(sp[j]) {
                sp[j]
            } else {
                ap_record(sp, j)
            },
    )
}

/// The records without rules, in order.
pub open spec fn keep_concrete(s: Seq<KeychainV>) -> Seq<KeychainV>
    decreases s.len(),
{
    if s.len() == 0 {
        Seq::empty()
    } else {
        keep_concrete(s.drop_last()) + if has_rules(s.last()) {
            Seq::empty()
        } else {
            seq![s.last()]
        }
    }
}

/// The full effect of `apply_patterns`: spread, propagate entries of every
/// applicable rule record into every concrete record without overwriting,
/// then drop the rule records.
pub open spec fn apply_patterns_spec(s: Seq<KeychainV>) -> Seq<KeychainV> {
    keep_concrete(resolved_records(spread_spec(s)))
}

/// Every rule built from the sequence is accepted by the regex engine.
pub open spec fn all_rules_accept(sp: Seq<KeychainV>) -> bool {
    forall|i: int, m: int|
        0 <= i < sp.len() && 0 <= m < rules_of(sp[i].patterns).len() ==> regex_accepts(
            (#[trigger] rules_of(sp[i].patterns)[m]).0,
        )
}

/// If any record carries rules, every concrete record has a pattern to
/// match against.
pub open spec fn safe_targets(sp: Seq<KeychainV>) -> bool {
    (exists|i: int| 0 <= i < sp.len() && has_rules(#[trigger] sp[i])) ==> (forall|j: int|
        0 <= j < sp.len() && !has_rules(#[trigger] sp[j]) ==> sp[j].patterns.len() > 0)
}

/// The later record folded into the earlier one: patterns concatenated,
/// entries united.
pub open spec fn merged_record(tgt: KeychainV, cur: KeychainV) -> KeychainV {
    KeychainV {
        patterns: tgt.patterns + cur.patterns,
        entries: tgt.entries.union_prefer_right(cur.entries),
    }
}

/// The largest index at most `j` whose record holds exactly the entries
/// `e`, or -1 if there is none.
pub open spec fn find_equal_before(s: Seq<KeychainV>, e: Map<TagV, Seq<char>>, j: int) -> int
    decreases j + 1,
{
    if j < 0 {
        -1
    } else if s[j].entries == e {
        j
    } else {
        find_equal_before(s, e, j - 1)
    }
}

/// The backward deduplication pass, processing record indices `i` down to 1:
/// a record whose entries equal an earlier record's and hold no `%h` value
/// is folded into the nearest such earlier record and removed.
pub open spec fn merge_from(s: Seq<KeychainV>, i: int) -> Seq<KeychainV>
    decreases i,
{
    if i <= 0 || i >= s.len() {
        s
    } else {
        let j = find_equal_before(s, s[i].entries, i - 1);
        let s1 = if j >= 0 && !entries_has_marker(s[i].entries) {
            s.update(j, merged_record(s[j], s[i])).remove(i)
        } else {
            s
        };
        merge_from(s1, i - 1)
    }
}

/// The full effect of `merge_same_keyss`.
pub open spec fn merge_spec(s: Seq<KeychainV>) -> Seq<KeychainV> {
    merge_from(s, s.len() - 1)
}

/// Every record lacking a `Host` entry gains one holding its first pattern.
pub open spec fn apply_name_spec(s: Seq<KeychainV>) -> Seq<KeychainV> {
    Seq::new(
        s.len(),
        |i: int|
            if s[i].entries.contains_key(TagV::Host) {
                s[i]
            } else {
                KeychainV {
                    patterns: s[i].patterns,
                    entries: s[i].entries.insert(TagV::Host, s[i].patterns[0]),
                }
            },
    )
}

proof fn lemma_feb_none(s: Seq<KeychainV>, e: Map<TagV, Seq<char>>, j0: int)
    requires
        forall|k: int| 0 <= k <= j0 ==> (#[trigger] s[k]).entries != e,
    ensures
        find_equal_before(s, e, j0) == -1,
    decreases j0 + 1,
{
    if j0 >= 0 {
        lemma_feb_none(s, e, j0 - 1);
    }
}

proof fn lemma_feb_at(s: Seq<KeychainV>, e: Map<TagV, Seq<char>>, j0: int, j: int)
    requires
        0 <= j <= j0,
        s[j].entries == e,
        forall|k: int| j < k <= j0 ==> (#[trigger] s[k]).entries != e,
    ensures
        find_equal_before(s, e, j0) == j,
    decreases j0 - j,
{
    if j < j0 {
        lemma_feb_at(s, e, j0 - 1, j);
    }
}

/// Resolution operations over an ordered sequence of records.  Each
/// operation leaves its receiver unchanged and returns a new sequence.
pub trait KeysVecExt: Sized {
    /// The mathematical values of the held records.
    spec fn keys_view(&self) -> Seq<KeychainV>;

    /// Every held record is internally valid.
    spec fn keys_wf(&self) -> bool;

    /// Gives every record lacking a `Host` entry one whose value is the
    /// record's first pattern.
    fn apply_name_to_empty_keysname(&self) -> (r: Self)
        requires
            self.keys_wf(),
            forall|i: int|
                0 <= i < self.keys_view().len() && !(#[trigger] self.keys_view()[i]).entries.contains_key(
                    TagV::Host,
                ) ==> self.keys_view()[i].patterns.len() > 0,
        ensures
            r.keys_view() == apply_name_spec(self.keys_view()),
            r.keys_wf();

    /// Merges records with identical entries into one record holding the
    /// union of their patterns; records with a value embedding `%h` are
    /// never merged.
    fn merge_same_keyss(&self) -> (r: Self)
        requires
            self.keys_wf(),
        ensures
            r.keys_view() == merge_spec(self.keys_view()),
            r.keys_wf();

    /// Spreads records with several patterns into one record per pattern.
    fn spread(&self) -> (r: Self)
        requires
            self.keys_wf(),
        ensures
            r.keys_view() == spread_spec(self.keys_view()),
            r.keys_wf();

    /// Applies the entries of rule-bearing records to the concrete records
    /// their rules match, then removes the rule-bearing records.
    fn apply_patterns(&self) -> (r: Self)
        requires
            self.keys_wf(),
            all_rules_accept(spread_spec(self.keys_view())),
            safe_targets(spread_spec(self.keys_view())),
        ensures
            r.keys_view() == apply_patterns_spec(self.keys_view()),
            r.keys_wf();
}

impl KeysVecExt for Vec<Keychain> {
    open spec fn keys_view(&self) -> Seq<KeychainV> {
        views_of(self@)
    }

    open spec fn keys_wf(&self) -> bool {
        all_wf(self@)
    }

    fn apply_name_to_empty_keysname(&self) -> (r: Self) {
        let mut keyss = clone_records(self);
        let ghost orig = views_of(self@);
        let n = keyss.len();
        let mut i: usize = 0;
        while i < n
            invariant
                0 <= i <= n,
                n == keyss.len(),
                n == orig.len(),
                all_wf(keyss@),
                forall|k: int| i <= k < n ==> (#[trigger] keyss@[k])@ == orig[k],
                forall|k: int| 0 <= k < i ==> (#[trigger] keyss@[k])@ == apply_name_spec(orig)[k],
            decreases n - i,
        {
            if !keyss[i].contains_tag(&EntryType::Host) {
                proof {
                    assert(keyss@[i as int]@ == orig[i as int]);
                    assert(self.keys_view()[i as int] == orig[i as int]);
                    assert(!self.keys_view()[i as int].entries.contains_key(TagV::Host));
                    assert(orig[i as int].patterns.len() > 0);
                }
                let name = keyss[i].get_patterns()[0].clone();
                let mut nk = keyss[i].clone();
                nk.update((EntryType::Host, name));
                keyss.set(i, nk);
            }
            i = i + 1;
        }
        proof {
            assert(views_of(keyss@) =~= apply_name_spec(orig));
        }
        keyss
    }

    fn merge_same_keyss(&self) -> (r: Self) {
        let mut keyss = clone_records(self);
        let ghost orig = views_of(self@);
        let len0 = keyss.len();
        if len0 == 0 {
            return keyss;
        }
        let mut i: usize = len0 - 1;
        while i > 0
            invariant
                0 <= i < keyss.len(),
                all_wf(keyss@),
                merge_spec(orig) == merge_from(views_of(keyss@), i as int),
            decreases i,
        {
            let ghost before = views_of(keyss@);
            let current = keyss[i].clone();
            let marker = current.has_expansion_marker();
            let mut found: Option<usize> = None;
            let mut j: usize = i;
            while j > 0 && found.is_none()
                invariant
                    0 <= j <= i < keyss.len(),
                    all_wf(keyss@),
                    views_of(keyss@) == before,
                    current@ == before[i as int],
                    current.wf(),
                    match found {
                        Some(f) => f < i && before[f as int].entries == current@.entries
                            && forall|k: int|
                                f < k < i ==> (#[trigger] before[k]).entries != current@.entries,
                        None => forall|k: int|
                            j <= k < i ==> (#[trigger] before[k]).entries != current@.entries,
                    },
                decreases j,
            {
                j = j - 1;
                if keyss[j].entries_equal(&current) {
                    found = Some(j);
                }
            }
            match found {
                Some(f) if !marker => {
                    proof {
                        lemma_feb_at(before, current@.entries, i - 1, f as int);
                    }
                    let mut tgt = keyss[f].clone();
                    tgt.extend_patterns(&current);
                    tgt.extend_entries(&current);
                    keyss.set(f, tgt);
                    keyss.remove(i);
                    proof {
                        assert(views_of(keyss@) =~= before.update(
                            f as int,
                            merged_record(before[f as int], before[i as int]),
                        ).remove(i as int));
                    }
                },
                _ => {
                    proof {
                        if found is None {
                            lemma_feb_none(before, current@.entries, i - 1);
                        }
                        assert(merge_from(before, i as int) == merge_from(
                            views_of(keyss@),
                            i - 1,
                        ));
                    }
                },
            }
            i = i - 1;
        }
        keyss
    }

    fn spread(&self) -> (r: Self) {
        let mut keyss: Vec<Keychain> = Vec::new();
        let ghost orig = views_of(self@);
        let n = self.len();
        let mut i: usize = 0;
        proof {
            assert(views_of(keyss@) =~= spread_spec(orig.take(0)));
        }
        while i < n
            invariant
                0 <= i <= n,
                n == self.len(),
                all_wf(self@),
                all_wf(keyss@),
                views_of(keyss@) == spread_spec(orig.take(i as int)),
            decreases n - i,
        {
            proof {
                assert(orig.take(i + 1).drop_last() =~= orig.take(i as int));
                assert(orig.take(i + 1).last() == orig[i as int]);
            }
            let pats_len = self[i].get_patterns().len();
            if pats_len == 0 {
                keyss.push(self[i].clone());
                proof {
                    assert(views_of(keyss@) =~= spread_spec(orig.take(i as int)) + spread_one(
                        orig[i as int],
                    ));
                }
            } else {
                let mut p: usize = 0;
                while p < pats_len
                    invariant
                        0 <= p <= pats_len,
                        0 <= i < n,
                        n == self.len(),
                        all_wf(self@),
                        all_wf(keyss@),
                        pats_len == orig[i as int].patterns.len(),
                        views_of(keyss@) == spread_spec(orig.take(i as int)) + spread_one(
                            orig[i as int],
                        ).take(p as int),
                    decreases pats_len - p,
                {
                    let mut nk = self[i].clone();
                    let mut pv: Vec<String> = Vec::new();
                    pv.push(self[i].get_patterns()[p].clone());
                    nk.patterns = pv;
                    proof {
                        assert(pattern_views(nk.patterns@) =~= seq![orig[i as int].patterns[
                            p as int
                        ]]);
                        assert(nk@ == spread_one(orig[i as int])[p as int]);
                    }
                    let ghost prev = views_of(keyss@);
                    keyss.push(nk);
                    p = p + 1;
                    proof {
                        assert(views_of(keyss@) =~= prev.push(spread_one(orig[i as int])[p - 1]));
                        assert(spread_one(orig[i as int]).take(p as int) =~= spread_one(
                            orig[i as int],
                        ).take(p - 1).push(spread_one(orig[i as int])[p - 1]));
                        assert(views_of(keyss@) =~= spread_spec(orig.take(i as int)) + spread_one(
                            orig[i as int],
                        ).take(p as int));
                    }
                }
                proof {
                    assert(spread_one(orig[i as int]).take(pats_len as int) =~= spread_one(
                        orig[i as int],
                    ));
                }
            }
            i = i + 1;
        }
        proof {
            assert(orig.take(n as int) =~= orig);
        }
        keyss
    }

    fn apply_patterns(&self) -> (r: Self) {
        let mut keyss = self.spread();
        let ghost sp = views_of(keyss@);
        let n = keyss.len();
        let mut all_rules: Vec<Vec<(String, bool)>> = Vec::new();
        let mut i: usize = 0;
        while i < n
            invariant
                0 <= i <= n,
                n == keyss.len(),
                all_wf(keyss@),
                views_of(keyss@) == sp,
                all_rules@.len() == i,
                forall|k: int|
                    0 <= k < i ==> rule_views((#[trigger] all_rules@[k])@) == rules_of(
                        sp[k].patterns,
                    ),
            decreases n - i,
        {
            all_rules.push(keyss[i].matching_pattern_rules());
            i = i + 1;
        }
        let mut i: usize = 0;
        while i < n
            invariant
                0 <= i <= n,
                n == keyss.len(),
                n == sp.len(),
                all_wf(keyss@),
                all_rules@.len() == n,
                all_rules_accept(sp),
                safe_targets(sp),
                forall|k: int|
                    0 <= k < n ==> rule_views((#[trigger] all_rules@[k])@) == rules_of(
                        sp[k].patterns,
                    ),
                forall|k: int| 0 <= k < n ==> (#[trigger] keyss@[k])@.patterns == sp[k].patterns,
                forall|k: int|
                    0 <= k < n && has_rules(sp[k]) ==> (#[trigger] keyss@[k])@ == sp[k],
                forall|k: int|
                    0 <= k < n && !has_rules(sp[k]) ==> (#[trigger] keyss@[k])@.entries
                        == ap_entries(sp, k, i as int),
            decreases n - i,
        {
            let rules_count = all_rules[i].len();
            if rules_count > 0 {
                proof {
                    assert(rule_views(all_rules@[i as int]@).len() == all_rules@[i as int]@.len());
                    assert(has_rules(sp[i as int]));
                }
                let src = keyss[i].clone();
                let mut j: usize = 0;
                while j < n
                    invariant
                        0 <= j <= n,
                        0 <= i < n,
                        n == keyss.len(),
                        n == sp.len(),
                        all_wf(keyss@),
                        all_rules@.len() == n,
                        all_rules_accept(sp),
                        safe_targets(sp),
                        has_rules(sp[i as int]),
                        rules_count == all_rules@[i as int]@.len(),
                        src@ == sp[i as int],
                        src.wf(),
                        forall|k: int|
                            0 <= k < n ==> rule_views((#[trigger] all_rules@[k])@) == rules_of(
                                sp[k].patterns,
                            ),
                        forall|k: int|
                            0 <= k < n ==> (#[trigger] keyss@[k])@.patterns == sp[k].patterns,
                        forall|k: int|
                            0 <= k < n && has_rules(sp[k]) ==> (#[trigger] keyss@[k])@ == sp[k],
                        forall|k: int|
                            0 <= k < n && !has_rules(sp[k]) ==> (#[trigger] keyss@[k])@.entries
                                == ap_entries(sp, k, if k < j { i + 1 } else { i as int }),
                    decreases n - j,
                {
                    if j != i && all_rules[j].len() == 0 {
                        proof {
                            assert(rule_views(all_rules@[j as int]@).len() == 0);
                            assert(!has_rules(sp[j as int]));
                            assert(sp[j as int].patterns.len() > 0);
                        }
                        let pat0 = keyss[j].get_patterns()[0].clone();
                        let mut m: usize = 0;
                        let mut applied = false;
                        while m < rules_count && !applied
                            invariant
                                0 <= m <= rules_count,
                                0 <= i < n,
                                0 <= j < n,
                                j != i,
                                n == keyss.len(),
                                n == sp.len(),
                                all_wf(keyss@),
                                all_rules@.len() == n,
                                all_rules_accept(sp),
                                has_rules(sp[i as int]),
                                !has_rules(sp[j as int]),
                                rules_count == all_rules@[i as int]@.len(),
                                rule_views(all_rules@[i as int]@) == rules_of(
                                    sp[i as int].patterns,
                                ),
                                src@ == sp[i as int],
                                src.wf(),
                                pat0@ == sp[j as int].patterns[0],
                                forall|k: int|
                                    0 <= k < n ==> (#[trigger] keyss@[k])@.patterns
                                        == sp[k].patterns,
                                forall|k: int|
                                    0 <= k < n && has_rules(sp[k]) ==> (#[trigger] keyss@[k])@
                                        == sp[k],
                                forall|k: int|
                                    0 <= k < n && !has_rules(sp[k]) && k != j ==> (
                                    #[trigger] keyss@[k])@.entries == ap_entries(
                                        sp,
                                        k,
                                        if k < j {
                                            i + 1
                                        } else {
                                            i as int
                                        },
                                    ),
                                !applied ==> forall|t: int|
                                    0 <= t < m ==> (#[trigger] rules_of(sp[i as int].patterns)[t]).1
                                        == regex_match(
                                        rules_of(sp[i as int].patterns)[t].0,
                                        sp[j as int].patterns[0],
                                    ),
                                !applied ==> keyss@[j as int]@.entries == ap_entries(
                                    sp,
                                    j as int,
                                    i as int,
                                ),
                                applied ==> rule_applies(
                                    rules_of(sp[i as int].patterns),
                                    sp[j as int].patterns[0],
                                ) && keyss@[j as int]@.entries == sp[i as int].entries.union_prefer_right(
                                    ap_entries(sp, j as int, i as int),
                                ),
                            decreases rules_count - m,
                        {
                            proof {
                                assert(rule_views(all_rules@[i as int]@)[m as int] == rules_of(
                                    sp[i as int].patterns,
                                )[m as int]);
                            }
                            let matched = rule_is_match(
                                all_rules[i][m].0.as_str(),
                                pat0.as_str(),
                            );
                            match matched {
                                Some(mm) => {
                                    if mm != all_rules[i][m].1 {
                                        let mut tgt = keyss[j].clone();
                                        tgt.extend_if_not_contained(&src);
                                        keyss.set(j, tgt);
                                        applied = true;
                                    }
                                },
                                None => {
                                    proof {
                                        assert(false);
                                    }
                                },
                            }
                            m = m + 1;
                        }
                        proof {
                            let jj = j as int;
                            let ii = i as int;
                            if applied {
                                assert(keyss@[jj]@.entries == ap_entries(sp, jj, ii + 1));
                            } else {
                                assert(!rule_applies(
                                    rules_of(sp[ii].patterns),
                                    sp[jj].patterns[0],
                                ));
                                assert(keyss@[jj]@.entries == ap_entries(sp, jj, ii + 1));
                            }
                        }
                    } else {
                        proof {
                            if j != i {
                                assert(rule_views(all_rules@[j as int]@).len() > 0);
                                assert(has_rules(sp[j as int]));
                            }
                        }
                    }
                    j = j + 1;
                }
            } else {
                proof {
                    assert(rule_views(all_rules@[i as int]@).len() == 0);
                    assert(!has_rules(sp[i as int]));
                    assert forall|k: int| 0 <= k < n && !has_rules(sp[k]) implies ap_entries(
                        sp,
                        k,
                        i + 1,
                    ) == ap_entries(sp, k, i as int) by {
                        assert(!has_rules(sp[i as int]));
                    }
                }
            }
            i = i + 1;
        }
        let ghost rr = resolved_records(sp);
        let mut out: Vec<Keychain> = Vec::new();
        let mut j: usize = 0;
        proof {
            assert(views_of(out@) =~= keep_concrete(rr.take(0)));
        }
        while j < n
            invariant
                0 <= j <= n,
                n == keyss.len(),
                n == sp.len(),
                n == rr.len(),
                all_wf(keyss@),
                all_wf(out@),
                all_rules@.len() == n,
                rr == resolved_records(sp),
                forall|k: int|
                    0 <= k < n ==> rule_views((#[trigger] all_rules@[k])@) == rules_of(
                        sp[k].patterns,
                    ),
                forall|k: int| 0 <= k < n ==> (#[trigger] keyss@[k])@.patterns == sp[k].patterns,
                forall|k: int|
                    0 <= k < n && has_rules(sp[k]) ==> (#[trigger] keyss@[k])@ == sp[k],
                forall|k: int|
                    0 <= k < n && !has_rules(sp[k]) ==> (#[trigger] keyss@[k])@.entries
                        == ap_entries(sp, k, n as int),
                views_of(out@) == keep_concrete(rr.take(j as int)),
            decreases n - j,
        {
            proof {
                assert(rr.take(j + 1).drop_last() =~= rr.take(j as int));
                assert(rr.take(j + 1).last() == rr[j as int]);
            }
            if all_rules[j].len() == 0 {
                proof {
                    assert(rule_views(all_rules@[j as int]@).len() == 0);
                    assert(!has_rules(sp[j as int]));
                    assert(rr[j as int] == ap_record(sp, j as int));
                }
                out.push(keyss[j].clone());
                proof {
                    assert(keyss@[j as int]@ == rr[j as int]);
                    assert(!has_rules(rr[j as int]));
                    assert(views_of(out@) =~= keep_concrete(rr.take(j as int)) + seq![
                        rr[j as int],
                    ]);
                }
            } else {
                proof {
                    assert(rule_views(all_rules@[j as int]@).len() > 0);
                    assert(has_rules(sp[j as int]));
                    assert(rr[j as int] == sp[j as int]);
                    assert(has_rules(rr[j as int]));
                    assert(views_of(out@) =~= keep_concrete(rr.take(j + 1)));
                }
            }
            j = j + 1;
        }
        proof {
            assert(rr.take(n as int) =~= rr);
        }
        out
    }
}

/// Applies the pattern records after checking at run time that the regex
/// engine accepts every built rule and that every concrete record has a
/// pattern to match against; `None` exactly when a check fails.
pub fn apply_patterns_checked(keyss: &Vec<Keychain>) -> (r: Option<Vec<Keychain>>)
    requires
        all_wf(keyss@),
    ensures
        match r {
            Some(v) => all_rules_accept(spread_spec(views_of(keyss@))) && safe_targets(
                spread_spec(views_of(keyss@)),
            ) && views_of(v@) == apply_patterns_spec(views_of(keyss@)) && all_wf(v@),
            None => !(all_rules_accept(spread_spec(views_of(keyss@))) && safe_targets(
                spread_spec(views_of(keyss@)),
            )),
        },
{
    let sp = keyss.spread();
    let ghost spv = views_of(sp@);
    let n = sp.len();
    let mut ok = true;
    let mut any_rules = false;
    let mut empty_concrete = false;
    let mut i: usize = 0;
    while i < n
        invariant
            0 <= i <= n,
            n == sp.len(),
            n == spv.len(),
            all_wf(sp@),
            views_of(sp@) == spv,
            ok == (forall|k: int, t: int|
                0 <= k < i && 0 <= t < rules_of(spv[k].patterns).len() ==> regex_accepts(
                    (#[trigger] rules_of(spv[k].patterns)[t]).0,
                )),
            any_rules == (exists|k: int| 0 <= k < i && has_rules(#[trigger] spv[k])),
            empty_concrete == (exists|k: int|
                0 <= k < i && !has_rules(#[trigger] spv[k]) && spv[k].patterns.len() == 0),
        decreases n - i,
    {
        let rules = sp[i].matching_pattern_rules();
        let rc = rules.len();
        if rc > 0 {
            proof {
                assert(rule_views(rules@).len() == rc);
                assert(has_rules(spv[i as int]));
            }
            any_rules = true;
            let mut t: usize = 0;
            let mut ok_i = true;
            while t < rc
                invariant
                    0 <= t <= rc,
                    rc == rules@.len(),
                    rule_views(rules@) == rules_of(spv[i as int].patterns),
                    ok_i == (forall|u: int|
                        0 <= u < t ==> regex_accepts(
                            (#[trigger] rules_of(spv[i as int].patterns)[u]).0,
                        )),
                decreases rc - t,
            {
                proof {
                    assert(rule_views(rules@)[t as int] == rules_of(spv[i as int].patterns)[
                        t as int
                    ]);
                }
                if !rule_compiles(rules[t].0.as_str()) {
                    ok_i = false;
                }
                t = t + 1;
            }
            ok = ok && ok_i;
        } else {
            proof {
                assert(rule_views(rules@).len() == 0);
                assert(!has_rules(spv[i as int]));
            }
            if sp[i].get_patterns().len() == 0 {
                empty_concrete = true;
            }
        }
        i = i + 1;
    }
    proof {
        assert(ok == all_rules_accept(spv));
        assert((!(any_rules && empty_concrete)) == safe_targets(spv));
    }
    if ok && !(any_rules && empty_concrete) {
        Some(keyss.apply_patterns())
    } else {
        None
    }
}

/// Merging behavior on a pair of records with identical entries: without a
/// `%h` value they collapse into one record holding both pattern lists;
/// with one they stay separate.
pub proof fn lemma_merge_two_records(a: KeychainV, b: KeychainV)
    requires
        a.entries == b.entries,
    ensures
        !entries_has_marker(b.entries) ==> merge_spec(seq![a, b]) == seq![merged_record(a, b)],
        entries_has_marker(b.entries) ==> merge_spec(seq![a, b]) == seq![a, b],
{
    let s = seq![a, b];
    assert(s.len() == 2);
    assert(s[0] == a && s[1] == b);
    assert(find_equal_before(s, s[1].entries, 0) == 0);
    if !entries_has_marker(b.entries) {
        let s1 = s.update(0, merged_record(s[0], s[1])).remove(1);
        assert(s1 =~= seq![merged_record(a, b)]);
        assert(merge_from(s, 1) == merge_from(s1, 0));
        assert(merge_from(s1, 0) == s1);
        assert(merge_spec(s) == s1);
    } else {
        assert(merge_from(s, 1) == merge_from(s, 0));
        assert(merge_from(s, 0) == s);
    }
}

/// A sequence is resolved when no record carries a rule and every record
/// holds at most one pattern.
pub open spec fn all_resolved(s: Seq<KeychainV>) -> bool {
    forall|i: int|
        0 <= i < s.len() ==> !has_rules(#[trigger] s[i]) && s[i].patterns.len() <= 1
}

proof fn lemma_spread_identity(s: Seq<KeychainV>)
    requires
        forall|i: int| 0 <= i < s.len() ==> (#[trigger] s[i]).patterns.len() <= 1,
    ensures
        spread_spec(s) == s,
    decreases s.len(),
{
    if s.len() > 0 {
        let t = s.drop_last();
        assert(forall|i: int| 0 <= i < t.len() ==> #[trigger] t[i] == s[i]);
        lemma_spread_identity(t);
        let k = s.last();
        if k.patterns.len() == 0 {
            assert(spread_one(k) =~= seq![k]);
        } else {
            assert(seq![k.patterns[0]] =~= k.patterns);
            assert(spread_one(k)[0] == k);
            assert(spread_one(k) =~= seq![k]);
        }
        assert(spread_spec(s) =~= s);
    } else {
        assert(spread_spec(s) =~= s);
    }
}

proof fn lemma_spread_short(s: Seq<KeychainV>)
    ensures
        forall|k: int|
            0 <= k < spread_spec(s).len() ==> (#[trigger] spread_spec(s)[k]).patterns.len() <= 1,
    decreases s.len(),
{
    if s.len() > 0 {
        let t = s.drop_last();
        lemma_spread_short(t);
        let k = s.last();
        assert forall|i: int| 0 <= i < spread_spec(s).len() implies (
        #[trigger] spread_spec(s)[i]).patterns.len() <= 1 by {
            if i < spread_spec(t).len() {
                assert(spread_spec(s)[i] == spread_spec(t)[i]);
            } else {
                let p = i - spread_spec(t).len();
                assert(spread_spec(s)[i] == spread_one(k)[p]);
                if k.patterns.len() == 0 {
                    assert(spread_one(k)[p] == k);
                } else {
                    assert(spread_one(k)[p].patterns =~= seq![k.patterns[p]]);
                }
            }
        }
    }
}

proof fn lemma_ap_entries_no_rules(sp: Seq<KeychainV>, j: int, i: int)
    requires
        forall|k: int| 0 <= k < sp.len() ==> !has_rules(#[trigger] sp[k]),
        0 <= i <= sp.len(),
    ensures
        ap_entries(sp, j, i) == sp[j].entries,
    decreases i,
{
    if i > 0 {
        lemma_ap_entries_no_rules(sp, j, i - 1);
        assert(!has_rules(sp[i - 1]));
    }
}

proof fn lemma_keep_concrete_id(s: Seq<KeychainV>)
    requires
        forall|i: int| 0 <= i < s.len() ==> !has_rules(#[trigger] s[i]),
    ensures
        keep_concrete(s) == s,
    decreases s.len(),
{
    if s.len() > 0 {
        let t = s.drop_last();
        assert(forall|i: int| 0 <= i < t.len() ==> #[trigger] t[i] == s[i]);
        lemma_keep_concrete_id(t);
        assert(!has_rules(s.last()));
        assert(keep_concrete(s) =~= s);
    } else {
        assert(keep_concrete(s) =~= s);
    }
}

proof fn lemma_keep_concrete_resolved(s: Seq<KeychainV>)
    requires
        forall|i: int| 0 <= i < s.len() ==> (#[trigger] s[i]).patterns.len() <= 1,
    ensures
        all_resolved(keep_concrete(s)),
    decreases s.len(),
{
    if s.len() > 0 {
        let t = s.drop_last();
        assert(forall|i: int| 0 <= i < t.len() ==> #[trigger] t[i] == s[i]);
        lemma_keep_concrete_resolved(t);
        if !has_rules(s.last()) {
            assert forall|i: int| 0 <= i < keep_concrete(s).len() implies !has_rules(
                #[trigger] keep_concrete(s)[i],
            ) && keep_concrete(s)[i].patterns.len() <= 1 by {
                if i < keep_concrete(t).len() {
                    assert(keep_concrete(s)[i] == keep_concrete(t)[i]);
                } else {
                    assert(keep_concrete(s)[i] == s.last());
                }
            }
        }
    }
}

/// The result of applying patterns is always resolved: every remaining
/// record is concrete and holds at most one pattern.
pub proof fn lemma_apply_patterns_resolved(s: Seq<KeychainV>)
    ensures
        all_resolved(apply_patterns_spec(s)),
{
    let sp = spread_spec(s);
    let rr = resolved_records(sp);
    lemma_spread_short(s);
    assert forall|k: int| 0 <= k < rr.len() implies (#[trigger] rr[k]).patterns.len() <= 1 by {
        assert(rr[k].patterns == sp[k].patterns);
    }
    lemma_keep_concrete_resolved(rr);
}

/// Applying patterns to an already-resolved sequence changes nothing.
pub proof fn lemma_apply_patterns_identity(s: Seq<KeychainV>)
    requires
        all_resolved(s),
    ensures
        apply_patterns_spec(s) == s,
{
    lemma_spread_identity(s);
    let rr = resolved_records(s);
    assert forall|j: int| 0 <= j < rr.len() implies #[trigger] rr[j] == s[j] by {
        assert(!has_rules(s[j]));
        lemma_ap_entries_no_rules(s, j, s.len() as int);
    }
    assert(rr =~= s);
    lemma_keep_concrete_id(s);
}

/// Applying patterns twice gives what applying them once gives: the second
/// application is a no-op.
pub proof fn lemma_apply_patterns_idempotent(s: Seq<KeychainV>)
    ensures
        apply_patterns_spec(apply_patterns_spec(s)) == apply_patterns_spec(s),
{
    lemma_apply_patterns_resolved(s);
    lemma_apply_patterns_identity(apply_patterns_spec(s));
}

} // verus!
