//! The line parser: comment handling with the `#!` escape convention,
//! directive-line tokenization with its separator styles, quoted pattern
//! lists, and host-block accumulation with an implicit global record.

use vstd::prelude::*;
use vstd::map::*;
use vstd::pervasive::VecAdditionalExecFns;

use crate::key_parser_error::{KeyParseError, KeyUnknownEntryError};
use crate::keychain::{all_wf, pattern_views, views_of, Entry, Keychain, KeychainV};
use crate::keychain_entry::{tag_of_key, EntryType, TagV};
use crate::text::{
    chars_to_string, copy_range, find_char, find_sep, first_index, first_sep, has_char, is_space,
    is_space_char, lemma_first_index_at, lemma_first_index_none, ltrim, ltrim_chars, rtrim,
    rtrim_chars, str_chars, strip_escape_markers, strip_escapes, trim, trim_chars,
};

verus! {

/// The lines of the input text, split at every line feed.
pub open spec fn split_lines(s: Seq<char>) -> Seq<Seq<char>>
    decreases s.len(),
{
    if s.len() == 0 {
        Seq::empty()
    } else {
        let i = first_index(s, '\n');
        if 0 <= i < s.len() {
            seq![s.take(i)] + split_lines(s.skip(i + 1))
        } else {
            seq![s]
        }
    }
}

/// The views of a vector of character-vector lines.
pub open spec fn lines_views(s: Seq<Vec<char>>) -> Seq<Seq<char>> {
    s.map_values(|l: Vec<char>| l@)
}

/// Splits the input into lines.
fn split_input(v: &Vec<char>) -> (r: Vec<Vec<char>>)
    ensures
        lines_views(r@) == split_lines(v@),
{
    let n = v.len();
    let mut r: Vec<Vec<char>> = Vec::new();
    let mut start: usize = 0;
    let mut i: usize = 0;
    proof {
        assert(v@.skip(0) =~= v@);
        assert(lines_views(r@) + split_lines(v@) =~= split_lines(v@));
    }
    while i < n
        invariant
            0 <= start <= i <= n,
            n == v.len(),
            forall|k: int| start <= k < i ==> v@[k] != '\n',
            split_lines(v@) == lines_views(r@) + split_lines(v@.skip(start as int)),
        decreases n - i,
    {
        if v[i] == '\n' {
            let line = copy_range(v, start, i);
            proof {
                let rest = v@.skip(start as int);
                assert forall|k: int| 0 <= k < i - start implies #[trigger] rest[k] != '\n' by {
                    assert(rest[k] == v@[start + k]);
                }
                assert(rest[i - start] == '\n');
                lemma_first_index_at(rest, '\n', i - start);
                assert(rest.take(i - start) =~= v@.subrange(start as int, i as int));
                assert(rest.skip(i - start + 1) =~= v@.skip(i + 1));
                assert(lines_views(r@.push(line)) =~= lines_views(r@) + seq![line@]);
            }
            r.push(line);
            start = i + 1;
        }
        i = i + 1;
    }
    proof {
        let rest = v@.skip(start as int);
        if start == n {
            assert(rest =~= Seq::<char>::empty());
            assert(lines_views(r@) + split_lines(rest) =~= lines_views(r@));
        } else {
            assert forall|k: int| 0 <= k < rest.len() implies #[trigger] rest[k] != '\n' by {
                assert(rest[k] == v@[start + k]);
            }
            lemma_first_index_none(rest, '\n');
        }
    }
    if start < n {
        let line = copy_range(v, start, n);
        proof {
            assert(line@ =~= v@.skip(start as int));
            assert(lines_views(r@.push(line)) =~= lines_views(r@) + seq![line@]);
        }
        r.push(line);
    }
    r
}

/// Whether the sequence starts with the two-character escape marker `#!`.
pub open spec fn starts_escape(s: Seq<char>) -> bool {
    s.len() >= 2 && s[0] == '#' && s[1] == '!'
}

/// Comment handling: a line holding `#` and not escape-prefixed after
/// trimming is cut at the first `#`; otherwise every `#!` marker is removed
/// and the line is trimmed.
pub open spec fn clean_line(l: Seq<char>) -> Seq<char> {
    if has_char(l, '#') && !starts_escape(trim(l)) {
        l.take(first_index(l, '#'))
    } else {
        trim(strip_escapes(l))
    }
}

/// Applies comment handling to one line.
fn clean_line_chars(v: &Vec<char>) -> (r: Vec<char>)
    ensures
        r@ == clean_line(v@),
{
    let t = trim_chars(v);
    let escaped = t.len() >= 2 && t[0] == '#' && t[1] == '!';
    match find_char(v, '#') {
        Some(i) if !escaped => copy_range(v, 0, i),
        _ => trim_chars(&strip_escape_markers(v)),
    }
}

/// All leading `=` characters removed.
pub open spec fn strip_lead_eq(s: Seq<char>) -> Seq<char>
    decreases s.len(),
{
    if s.len() > 0 && s[0] == '=' {
        strip_lead_eq(s.drop_first())
    } else {
        s
    }
}

/// All trailing `=` characters removed.
pub open spec fn strip_trail_eq(s: Seq<char>) -> Seq<char>
    decreases s.len(),
{
    if s.len() > 0 && s.last() == '=' {
        strip_trail_eq(s.drop_last())
    } else {
        s
    }
}

proof fn lemma_strip_lead_eq_at(s: Seq<char>, i: int)
    requires
        0 <= i <= s.len(),
        forall|j: int| 0 <= j < i ==> s[j] == '=',
        i == s.len() || s[i] != '=',
    ensures
        strip_lead_eq(s) == s.subrange(i, s.len() as int),
    decreases i,
{
    if i == 0 {
        assert(s.subrange(0, s.len() as int) =~= s);
    } else {
        let t = s.drop_first();
        assert(forall|j: int| 0 <= j < i - 1 ==> #[trigger] t[j] == '=');
        lemma_strip_lead_eq_at(t, i - 1);
        assert(t.subrange(i - 1, t.len() as int) =~= s.subrange(i, s.len() as int));
    }
}

proof fn lemma_strip_trail_eq_at(s: Seq<char>, h: int)
    requires
        0 <= h <= s.len(),
        forall|j: int| h <= j < s.len() ==> s[j] == '=',
        h == 0 || s[h - 1] != '=',
    ensures
        strip_trail_eq(s) == s.subrange(0, h),
    decreases s.len() - h,
{
    if h == s.len() {
        assert(s.subrange(0, s.len() as int) =~= s);
    } else {
        let t = s.drop_last();
        assert(forall|j: int| h <= j < t.len() ==> #[trigger] t[j] == '=');
        lemma_strip_trail_eq_at(t, h);
        assert(t.subrange(0, h) =~= s.subrange(0, h));
    }
}

/// Removes the leading `=` characters of `v`.
fn strip_lead_eq_chars(v: &Vec<char>) -> (r: Vec<char>)
    ensures
        r@ == strip_lead_eq(v@),
{
    let n = v.len();
    let mut e: usize = 0;
    while e < n && v[e] == '='
        invariant
            0 <= e <= n,
            n == v.len(),
            forall|j: int| 0 <= j < e ==> v@[j] == '=',
        decreases n - e,
    {
        e = e + 1;
    }
    proof {
        lemma_strip_lead_eq_at(v@, e as int);
    }
    copy_range(v, e, n)
}

/// Removes the trailing `=` characters of `v`.
fn strip_trail_eq_chars(v: &Vec<char>) -> (r: Vec<char>)
    ensures
        r@ == strip_trail_eq(v@),
{
    let n = v.len();
    let mut h: usize = n;
    while h > 0 && v[h - 1] == '='
        invariant
            0 <= h <= n,
            n == v.len(),
            forall|j: int| h <= j < n ==> v@[j] == '=',
        decreases h,
    {
        h = h - 1;
    }
    proof {
        lemma_strip_trail_eq_at(v@, h as int);
    }
    copy_range(v, 0, h)
}

/// Directive-line tokenization: split the trimmed line at the first space,
/// tab or `=`; trim the key's end and the value's start; then strip a
/// remaining `=` (with further whitespace) so that every separator spacing
/// style yields the same key and value.  `None` when the line holds no
/// separator at all.
pub open spec fn tokenize(l: Seq<char>) -> Option<(Seq<char>, Seq<char>)> {
    let t = trim(l);
    let i = first_sep(t);
    if i < 0 {
        None
    } else {
        let key0 = rtrim(t.take(i));
        let val0 = ltrim(t.skip(i + 1));
        let key = if key0.len() > 0 && key0.last() == '=' {
            rtrim(strip_trail_eq(key0))
        } else {
            key0
        };
        let val = if val0.len() > 0 && val0[0] == '=' {
            ltrim(strip_lead_eq(val0))
        } else {
            val0
        };
        Some((key, val))
    }
}

/// Tokenizes one cleaned line into a classified entry.
fn split_entry(line: &Vec<char>) -> (r: Option<Entry>)
    ensures
        match r {
            Some(e) => tokenize(line@) matches Some(kv) && e.0@ == tag_of_key(kv.0) && e.1@
                == kv.1,
            None => tokenize(line@) is None,
        },
{
    let t = trim_chars(line);
    match find_sep(&t) {
        None => None,
        Some(i) => {
            let key0 = rtrim_chars(&copy_range(&t, 0, i));
            let val0 = ltrim_chars(&copy_range(&t, i + 1, t.len()));
            let key = if key0.len() > 0 && key0[key0.len() - 1] == '=' {
                rtrim_chars(&strip_trail_eq_chars(&key0))
            } else {
                key0
            };
            let val = if val0.len() > 0 && val0[0] == '=' {
                ltrim_chars(&strip_lead_eq_chars(&val0))
            } else {
                val0
            };
            let tag = EntryType::from_key(chars_to_string(&key).as_str());
            let value = chars_to_string(&val);
            Some((tag, value))
        },
    }
}

/// Pattern-list parsing: a double quote toggles quoting and flushes on
/// close; unquoted whitespace separates patterns; everything else
/// accumulates.  `i` scans the value, `acc` is the accumulator, `inq` the
/// quoting flag.
pub open spec fn patterns_rec(s: Seq<char>, i: int, acc: Seq<char>, inq: bool) -> Seq<Seq<char>>
    decreases s.len() - i,
{
    if i < 0 || i >= s.len() {
        if acc.len() > 0 {
            seq![trim(acc)]
        } else {
            Seq::empty()
        }
    } else {
        let c = s[i];
        if c == '"' {
            if inq {
                seq![trim(acc)] + patterns_rec(s, i + 1, Seq::empty(), false)
            } else {
                patterns_rec(s, i + 1, acc, true)
            }
        } else if is_space(c) {
            if inq {
                patterns_rec(s, i + 1, acc.push(c), true)
            } else if acc.len() > 0 {
                seq![trim(acc)] + patterns_rec(s, i + 1, Seq::empty(), false)
            } else {
                patterns_rec(s, i + 1, acc, inq)
            }
        } else {
            patterns_rec(s, i + 1, acc.push(c), inq)
        }
    }
}

/// The patterns of a `Host` directive value.
pub open spec fn patterns_of(v: Seq<char>) -> Seq<Seq<char>> {
    patterns_rec(v, 0, Seq::empty(), false)
}

/// Parses a `Host` value into its ordered pattern list, honoring quoted
/// multi-word patterns.
pub fn parse_patterns(entry_value: &str) -> (r: Vec<String>)
    ensures
        pattern_views(r@) == patterns_of(entry_value@),
{
    let v = str_chars(entry_value);
    let n = v.len();
    let mut out: Vec<String> = Vec::new();
    let mut acc: Vec<char> = Vec::new();
    let mut inq = false;
    let mut i: usize = 0;
    while i < n
        invariant
            0 <= i <= n,
            n == v.len(),
            v@ == entry_value@,
            patterns_of(v@) == pattern_views(out@) + patterns_rec(v@, i as int, acc@, inq),
        decreases n - i,
    {
        let c = v[i];
        if c == '"' {
            if inq {
                out.push(chars_to_string(&trim_chars(&acc)));
                acc.clear();
                inq = false;
                proof {
                    assert(pattern_views(out@) + patterns_rec(v@, i + 1, acc@, false)
                        =~= patterns_of(v@));
                }
            } else {
                inq = true;
            }
        } else if is_space_char(c) {
            if inq {
                acc.push(c);
            } else if acc.len() > 0 {
                out.push(chars_to_string(&trim_chars(&acc)));
                acc.clear();
                proof {
                    assert(pattern_views(out@) + patterns_rec(v@, i + 1, acc@, inq)
                        =~= patterns_of(v@));
                }
            }
        } else {
            acc.push(c);
        }
        i = i + 1;
    }
    if acc.len() > 0 {
        out.push(chars_to_string(&trim_chars(&acc)));
        proof {
            assert(pattern_views(out@) =~= patterns_of(v@));
        }
    }
    proof {
        assert(pattern_views(out@) =~= patterns_of(v@));
    }
    out
}

/// Tokenizes one directive line.  The error carries the line verbatim when
/// no separator is found.
pub fn parse_line(line: &str) -> (r: Result<Entry, KeyParseError>)
    ensures
        match tokenize(line@) {
            Some(kv) => r matches Ok(e) && e.0@ == tag_of_key(kv.0) && e.1@ == kv.1,
            None => r matches Err(KeyParseError::UnparseableLine(s)) && s@ == line@,
        },
{
    let v = str_chars(line);
    match split_entry(&v) {
        Some(e) => Ok(e),
        None => Err(KeyParseError::UnparseableLine(chars_to_string(&v))),
    }
}

/// Outcome of the raw line-by-line parse: the accumulated global entries
/// and host-block records, or the first error.
pub ghost enum RawOutcome {
    Done { global: Map<TagV, Seq<char>>, records: Seq<KeychainV> },
    BadLine(Seq<char>),
    BadEntry { line: Seq<char>, key: Seq<char> },
}

/// The raw parse, one line at a time: comment handling, skip of blank and
/// comment lines, tokenization, and dispatch on the tag.  An unknown tag
/// fails in strict mode and is dropped when tolerated; a `Host` tag opens a
/// new record; any other tag updates the last open record, or the global
/// entries before the first host block.
pub open spec fn parse_lines_rec(
    lines: Seq<Seq<char>>,
    i: int,
    tolerate: bool,
    global: Map<TagV, Seq<char>>,
    records: Seq<KeychainV>,
    in_block: bool,
) -> RawOutcome
    decreases lines.len() - i,
{
    if i < 0 || i >= lines.len() {
        RawOutcome::Done { global, records }
    } else {
        let l = clean_line(lines[i]);
        if l.len() == 0 || l[0] == '#' {
            parse_lines_rec(lines, i + 1, tolerate, global, records, in_block)
        } else {
            match tokenize(l) {
                None => RawOutcome::BadLine(l),
                Some(kv) => match tag_of_key(kv.0) {
                    TagV::Unknown(name) => if !tolerate {
                        RawOutcome::BadEntry { line: l, key: name }
                    } else {
                        parse_lines_rec(lines, i + 1, tolerate, global, records, in_block)
                    },
                    TagV::Host => parse_lines_rec(
                        lines,
                        i + 1,
                        tolerate,
                        global,
                        records.push(
                            KeychainV {
                                patterns: patterns_of(kv.1),
                                entries: Map::<TagV, Seq<char>>::empty(),
                            },
                        ),
                        true,
                    ),
                    _ => if in_block {
                        let last = records.len() - 1;
                        parse_lines_rec(
                            lines,
                            i + 1,
                            tolerate,
                            global,
                            records.update(
                                last,
                                KeychainV {
                                    patterns: records[last].patterns,
                                    entries: records[last].entries.insert(tag_of_key(kv.0), kv.1),
                                },
                            ),
                            in_block,
                        )
                    } else {
                        parse_lines_rec(
                            lines,
                            i + 1,
                            tolerate,
                            global.insert(tag_of_key(kv.0), kv.1),
                            records,
                            in_block,
                        )
                    },
                },
            }
        }
    }
}

/// Every record with the global entries folded in: a global entry reaches a
/// record only for tags the record does not define.
pub open spec fn fold_global(g: Map<TagV, Seq<char>>, records: Seq<KeychainV>) -> Seq<KeychainV> {
    Seq::new(
        records.len(),
        |i: int|
            KeychainV {
                patterns: records[i].patterns,
                entries: g.union_prefer_right(records[i].entries),
            },
    )
}

/// The parser's whole effect on an input text.
pub open spec fn parse_spec(input: Seq<char>, tolerate: bool) -> RawOutcome {
    parse_lines_rec(
        split_lines(input),
        0,
        tolerate,
        Map::<TagV, Seq<char>>::empty(),
        Seq::empty(),
        false,
    )
}

/// The parser.  By default unknown directives are tolerated and dropped;
/// in strict mode they abort the parse.
#[derive(Debug)]
pub struct KeyParser {
    ignore_unknown_entries: bool,
}

impl KeyParser {
    /// Whether unknown directives are tolerated.
    pub closed spec fn tolerant(&self) -> bool {
        self.ignore_unknown_entries
    }

    /// A parser with the default tolerance for unknown directives.
    pub fn new() -> (r: KeyParser)
        ensures
            r.tolerant(),
    {
        KeyParser { ignore_unknown_entries: true }
    }

    /// A parser with the given tolerance for unknown directives.
    pub fn with_tolerance(ignore_unknown_entries: bool) -> (r: KeyParser)
        ensures
            r.tolerant() == ignore_unknown_entries,
    {
        KeyParser { ignore_unknown_entries }
    }

    fn parse_raw(&self, lines: &Vec<Vec<char>>) -> (r: Result<
        (Keychain, Vec<Keychain>),
        KeyParseError,
    >)
        ensures
            match parse_lines_rec(
                lines_views(lines@),
                0,
                self.tolerant(),
                Map::<TagV, Seq<char>>::empty(),
                Seq::empty(),
                false,
            ) {
                RawOutcome::Done { global, records } => r matches Ok(p) && p.0@.entries == global
                    && p.0.wf() && views_of(p.1@) == records && all_wf(p.1@),
                RawOutcome::BadLine(l) => r matches Err(KeyParseError::UnparseableLine(s)) && s@
                    == l,
                RawOutcome::BadEntry { line, key } => r matches Err(KeyParseError::UnknownEntry(e))
                    && e.line@ == line && e.entry@ == key,
            },
    {
        let ghost lv = lines_views(lines@);
        let tolerate = self.ignore_unknown_entries;
        let mut global = Keychain::new(Vec::new());
        let mut keychains: Vec<Keychain> = Vec::new();
        let mut in_block = false;
        let n = lines.len();
        let mut i: usize = 0;
        proof {
            assert(views_of(keychains@) =~= Seq::<KeychainV>::empty());
        }
        while i < n
            invariant
                0 <= i <= n,
                n == lines.len(),
                n == lv.len(),
                lv == lines_views(lines@),
                tolerate == self.tolerant(),
                global.wf(),
                all_wf(keychains@),
                in_block ==> keychains@.len() > 0,
                parse_lines_rec(lv, 0, tolerate, Map::<TagV, Seq<char>>::empty(), Seq::empty(), false)
                    == parse_lines_rec(
                    lv,
                    i as int,
                    tolerate,
                    global@.entries,
                    views_of(keychains@),
                    in_block,
                ),
            decreases n - i,
        {
            let cleaned = clean_line_chars(&lines[i]);
            proof {
                assert(lv[i as int] == lines@[i as int]@);
            }
            if cleaned.len() == 0 || cleaned[0] == '#' {
            } else {
                match split_entry(&cleaned) {
                    None => {
                        return Err(KeyParseError::UnparseableLine(chars_to_string(&cleaned)));
                    },
                    Some((tag, value)) => {
                        match tag {
                            EntryType::Unknown(name) => {
                                if !tolerate {
                                    return Err(
                                        KeyParseError::UnknownEntry(
                                            KeyUnknownEntryError {
                                                line: chars_to_string(&cleaned),
                                                entry: name,
                                            },
                                        ),
                                    );
                                }
                            },
                            EntryType::Host => {
                                let pats = parse_patterns(value.as_str());
                                let ghost prev = views_of(keychains@);
                                keychains.push(Keychain::new(pats));
                                in_block = true;
                                proof {
                                    assert(views_of(keychains@) =~= prev.push(
                                        keychains@.last()@,
                                    ));
                                }
                            },
                            other => {
                                if in_block {
                                    let li = keychains.len() - 1;
                                    let mut lk = keychains[li].clone();
                                    lk.update((other, value));
                                    let ghost prev = views_of(keychains@);
                                    keychains.set(li, lk);
                                    proof {
                                        assert(views_of(keychains@) =~= prev.update(
                                            li as int,
                                            keychains@[li as int]@,
                                        ));
                                    }
                                } else {
                                    global.update((other, value));
                                }
                            },
                        }
                    },
                }
            }
            i = i + 1;
        }
        Ok((global, keychains))
    }

    /// Parses a configuration text into its records, with the global
    /// entries folded into every record without overwriting.
    pub fn parse(&self, input: &str) -> (r: Result<Vec<Keychain>, KeyParseError>)
        ensures
            match parse_spec(input@, self.tolerant()) {
                RawOutcome::Done { global, records } => r matches Ok(ks) && views_of(ks@)
                    == fold_global(global, records) && all_wf(ks@),
                RawOutcome::BadLine(l) => r matches Err(KeyParseError::UnparseableLine(s)) && s@
                    == l,
                RawOutcome::BadEntry { line, key } => r matches Err(KeyParseError::UnknownEntry(e))
                    && e.line@ == line && e.entry@ == key,
            },
    {
        let chars = str_chars(input);
        let lines = split_input(&chars);
        match self.parse_raw(&lines) {
            Err(e) => Err(e),
            Ok((global, mut keychains)) => {
                let ghost g = global@.entries;
                let ghost records = views_of(keychains@);
                if !global.is_empty() {
                    let n = keychains.len();
                    let mut i: usize = 0;
                    while i < n
                        invariant
                            0 <= i <= n,
                            n == keychains.len(),
                            n == records.len(),
                            global.wf(),
                            global@.entries == g,
                            all_wf(keychains@),
                            forall|k: int| i <= k < n ==> (#[trigger] keychains@[k])@ == records[k],
                            forall|k: int|
                                0 <= k < i ==> (#[trigger] keychains@[k])@ == fold_global(
                                    g,
                                    records,
                                )[k],
                        decreases n - i,
                    {
                        let mut k = keychains[i].clone();
                        k.extend_if_not_contained(&global);
                        keychains.set(i, k);
                        i = i + 1;
                    }
                    proof {
                        assert(views_of(keychains@) =~= fold_global(g, records));
                    }
                } else {
                    proof {
                        assert forall|k: int| 0 <= k < records.len() implies fold_global(
                            g,
                            records,
                        )[k] == records[k] by {
                            assert(g.union_prefer_right(records[k].entries)
                                =~= records[k].entries);
                        }
                        assert(views_of(keychains@) =~= fold_global(g, records));
                    }
                }
                Ok(keychains)
            },
        }
    }
}

impl Default for KeyParser {
    /// The default parser tolerates unknown directives.
    fn default() -> (r: KeyParser)
        ensures
            r.tolerant(),
    {
        KeyParser::new()
    }
}

/// Text from the first `#` of a line onward is discarded, for every line
/// that holds a `#` and is not escape-prefixed after trimming.
pub proof fn lemma_comment_discard(l: Seq<char>)
    requires
        has_char(l, '#'),
        !starts_escape(trim(l)),
    ensures
        clean_line(l) == l.take(first_index(l, '#')),
{
}

/// A global entry reaches every record that does not define its tag, and
/// never overrides a tag the record defines; patterns are untouched.
pub proof fn lemma_global_defaults(
    g: Map<TagV, Seq<char>>,
    records: Seq<KeychainV>,
    i: int,
    t: TagV,
)
    requires
        0 <= i < records.len(),
    ensures
        fold_global(g, records)[i].patterns == records[i].patterns,
        fold_global(g, records)[i].entries.contains_key(t) == (g.contains_key(t)
            || records[i].entries.contains_key(t)),
        records[i].entries.contains_key(t) ==> fold_global(g, records)[i].entries[t]
            == records[i].entries[t],
        !records[i].entries.contains_key(t) && g.contains_key(t) ==> fold_global(
            g,
            records,
        )[i].entries[t] == g[t],
{
}

} // verus!
