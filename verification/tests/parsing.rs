use keystore::key_parser::{parse_line, parse_patterns};
use keystore::{EntryType, KeyParseError, KeyParser, Keychain};

fn patterns_of(k: &Keychain) -> Vec<String> {
    k.get_patterns().clone()
}

#[test]
fn comment_text_is_discarded() {
    let parser = KeyParser::new();
    let records = parser.parse("Host foo # comment").unwrap();
    assert_eq!(records.len(), 1);
    assert_eq!(patterns_of(&records[0]), vec!["foo".to_string()]);
    assert!(records[0].is_empty());
}

#[test]
fn escape_marker_is_removed_not_a_comment() {
    let parser = KeyParser::new();
    let escaped = parser.parse("#!Host foo").unwrap();
    let plain = parser.parse("Host foo").unwrap();
    assert_eq!(escaped.len(), 1);
    assert_eq!(plain.len(), 1);
    assert_eq!(patterns_of(&escaped[0]), patterns_of(&plain[0]));
    assert!(escaped[0].is_empty() && plain[0].is_empty());
}

#[test]
fn genuine_comment_lines_are_skipped() {
    let parser = KeyParser::new();
    let records = parser.parse("# a comment\n\nHost foo\n# another\nPassword p").unwrap();
    assert_eq!(records.len(), 1);
    assert_eq!(
        records[0].get(&EntryType::Password),
        Some("p".to_string())
    );
}

#[test]
fn separator_styles_all_tokenize_alike() {
    for line in ["Port 22", "Port=22", "Port = 22", "Port= 22", "Port =22"] {
        let entry = parse_line(line).unwrap();
        assert_eq!(entry.0, EntryType::Unknown("Port".to_string()));
        assert_eq!(entry.1, "22".to_string());
    }
}

#[test]
fn separator_styles_through_parse() {
    let parser = KeyParser::new();
    for text in [
        "Host h\nPassword 22",
        "Host h\nPassword=22",
        "Host h\nPassword = 22",
        "Host h\nPassword= 22",
        "Host h\nPassword =22",
    ] {
        let records = parser.parse(text).unwrap();
        assert_eq!(records.len(), 1);
        assert_eq!(records[0].get(&EntryType::Password), Some("22".to_string()));
    }
}

#[test]
fn line_without_separator_is_unparseable() {
    let parser = KeyParser::new();
    match parser.parse("Hostfoo") {
        Err(KeyParseError::UnparseableLine(l)) => assert_eq!(l, "Hostfoo".to_string()),
        other => panic!("expected an unparseable-line error, got {:?}", other),
    }
}

#[test]
fn indented_comment_is_cut_to_blank_and_rejected() {
    // A line of whitespace before `#` is cut at the `#`, leaving whitespace
    // that is neither empty nor a comment, so tokenization fails on it.
    let parser = KeyParser::new();
    match parser.parse(" # note") {
        Err(KeyParseError::UnparseableLine(l)) => assert_eq!(l, " ".to_string()),
        other => panic!("expected an unparseable-line error, got {:?}", other),
    }
}

#[test]
fn quoted_multi_word_pattern() {
    let pats = parse_patterns("\"my host\" other");
    assert_eq!(pats, vec!["my host".to_string(), "other".to_string()]);
    let parser = KeyParser::new();
    let records = parser.parse("Host \"my host\" other").unwrap();
    assert_eq!(
        patterns_of(&records[0]),
        vec!["my host".to_string(), "other".to_string()]
    );
}

#[test]
fn pattern_list_collapses_repeated_separators() {
    let pats = parse_patterns("a   b\tc");
    assert_eq!(
        pats,
        vec!["a".to_string(), "b".to_string(), "c".to_string()]
    );
}

#[test]
fn empty_quotes_flush_an_empty_pattern() {
    let pats = parse_patterns("\"\" x");
    assert_eq!(pats, vec!["".to_string(), "x".to_string()]);
}

#[test]
fn unknown_directive_dropped_when_tolerated() {
    let parser = KeyParser::new();
    let records = parser.parse("Host h\nFoo bar").unwrap();
    assert_eq!(records.len(), 1);
    assert!(records[0].is_empty());
    assert_eq!(records[0].get(&EntryType::Unknown("Foo".to_string())), None);
}

#[test]
fn unknown_directive_fails_in_strict_mode() {
    let parser = KeyParser::with_tolerance(false);
    match parser.parse("Foo bar") {
        Err(KeyParseError::UnknownEntry(e)) => {
            assert_eq!(e.entry, "Foo".to_string());
            assert_eq!(e.line, "Foo bar".to_string());
        },
        other => panic!("expected an unknown-entry error, got {:?}", other),
    }
}

#[test]
fn global_directives_fill_only_missing_tags() {
    let parser = KeyParser::new();
    let records = parser
        .parse("Password global\nHost a\nHost b\nPassword own")
        .unwrap();
    assert_eq!(records.len(), 2);
    assert_eq!(
        records[0].get(&EntryType::Password),
        Some("global".to_string())
    );
    assert_eq!(records[1].get(&EntryType::Password), Some("own".to_string()));
}

#[test]
fn empty_input_yields_no_records() {
    let parser = KeyParser::new();
    let records = parser.parse("").unwrap();
    assert!(records.is_empty());
}

#[test]
fn keys_are_case_insensitive() {
    let parser = KeyParser::new();
    let records = parser.parse("HOST h\npAsSwOrD s").unwrap();
    assert_eq!(records.len(), 1);
    assert_eq!(records[0].get(&EntryType::Password), Some("s".to_string()));
    assert_eq!(EntryType::from_key("HoSt"), EntryType::Host);
    assert_eq!(EntryType::from_key("match"), EntryType::Match);
    assert_eq!(
        EntryType::from_key("Porte"),
        EntryType::Unknown("Porte".to_string())
    );
}

#[test]
fn display_names() {
    assert_eq!(EntryType::Host.to_display_name(), "Host".to_string());
    assert_eq!(EntryType::Match.to_display_name(), "Match".to_string());
    assert_eq!(EntryType::Password.to_display_name(), "Password".to_string());
    assert_eq!(
        EntryType::Unknown("Foo".to_string()).to_display_name(),
        "Foo".to_string()
    );
}

#[test]
fn update_keeps_last_value_per_tag() {
    let mut k = Keychain::new(vec!["h".to_string()]);
    k.update((EntryType::Password, "one".to_string()));
    k.update((EntryType::Password, "two".to_string()));
    assert_eq!(k.get(&EntryType::Password), Some("two".to_string()));
    assert!(!k.is_empty());
}

#[test]
fn host_entry_is_not_stored_in_the_record_map() {
    let parser = KeyParser::new();
    let records = parser.parse("Host h\nPassword p").unwrap();
    assert_eq!(records[0].get(&EntryType::Host), None);
}

#[test]
fn tab_is_a_separator() {
    let entry = parse_line("Password\tsecret").unwrap();
    assert_eq!(entry.0, EntryType::Password);
    assert_eq!(entry.1, "secret".to_string());
}

#[test]
fn parse_line_reports_the_line_it_cannot_tokenize() {
    match parse_line("NoSeparator") {
        Err(KeyParseError::UnparseableLine(l)) => assert_eq!(l, "NoSeparator".to_string()),
        other => panic!("expected an unparseable-line error, got {:?}", other),
    }
}

#[test]
fn carriage_returns_are_trimmed_like_whitespace() {
    let parser = KeyParser::new();
    let records = parser.parse("Host foo\r\nPassword p\r\n").unwrap();
    assert_eq!(records.len(), 1);
    assert_eq!(patterns_of(&records[0]), vec!["foo".to_string()]);
    assert_eq!(records[0].get(&EntryType::Password), Some("p".to_string()));
}
