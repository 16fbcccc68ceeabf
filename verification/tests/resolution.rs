use keystore::keychain::apply_patterns_checked;
use keystore::{EntryType, KeyParser, Keychain, KeysVecExt};

fn patterns_of(k: &Keychain) -> Vec<String> {
    k.get_patterns().clone()
}

#[test]
fn spread_splits_multi_pattern_records() {
    let parser = KeyParser::new();
    let records = parser.parse("Host a b\nPassword p\nHost c").unwrap();
    let spread = records.spread();
    assert_eq!(spread.len(), 3);
    assert_eq!(patterns_of(&spread[0]), vec!["a".to_string()]);
    assert_eq!(patterns_of(&spread[1]), vec!["b".to_string()]);
    assert_eq!(patterns_of(&spread[2]), vec!["c".to_string()]);
    assert_eq!(spread[0].get(&EntryType::Password), Some("p".to_string()));
    assert_eq!(spread[1].get(&EntryType::Password), Some("p".to_string()));
    assert_eq!(spread[2].get(&EntryType::Password), None);
}

#[test]
fn matching_rules_are_built_from_rule_bearing_patterns() {
    let k = Keychain::new(vec![
        "*.example.com".to_string(),
        "plain.example.com".to_string(),
        "!bad?".to_string(),
    ]);
    let rules = k.matching_pattern_rules();
    assert_eq!(rules.len(), 2);
    assert_eq!(rules[0].0, "^.*\\.example\\.com$".to_string());
    assert!(!rules[0].1);
    assert_eq!(rules[1].0, "^bad.$".to_string());
    assert!(rules[1].1);
}

#[test]
fn wildcard_entries_reach_matching_concrete_hosts() {
    let parser = KeyParser::new();
    let records = parser
        .parse("Host *.example.com\nPassword p1\nHost a.example.com")
        .unwrap();
    let resolved = records.apply_patterns();
    assert_eq!(resolved.len(), 1);
    assert_eq!(patterns_of(&resolved[0]), vec!["a.example.com".to_string()]);
    assert_eq!(
        resolved[0].get(&EntryType::Password),
        Some("p1".to_string())
    );
}

#[test]
fn wildcard_does_not_overwrite_explicit_values() {
    let parser = KeyParser::new();
    let records = parser
        .parse("Host *.example.com\nPassword p1\nHost a.example.com\nPassword own")
        .unwrap();
    let resolved = records.apply_patterns();
    assert_eq!(resolved.len(), 1);
    assert_eq!(
        resolved[0].get(&EntryType::Password),
        Some("own".to_string())
    );
}

#[test]
fn negated_rule_applies_to_every_non_matching_host() {
    let parser = KeyParser::new();
    let records = parser
        .parse("Host !bad.example.com\nPassword p1\nHost a.example.com\nHost bad.example.com")
        .unwrap();
    let resolved = records.apply_patterns();
    assert_eq!(resolved.len(), 2);
    assert_eq!(
        resolved[0].get(&EntryType::Password),
        Some("p1".to_string())
    );
    assert_eq!(resolved[1].get(&EntryType::Password), None);
}

#[test]
fn wildcard_and_negation_in_one_block_apply_independently() {
    // After spreading, each pattern of the block carries the block's
    // entries on its own: the wildcard rule reaches every matching host,
    // the excluded one included, and the negated rule reaches the rest.
    let parser = KeyParser::new();
    let records = parser
        .parse(
            "Host *.example.com !bad.example.com\nPassword p1\nHost a.example.com\nHost bad.example.com\nHost other",
        )
        .unwrap();
    let resolved = records.apply_patterns();
    assert_eq!(resolved.len(), 3);
    assert_eq!(
        resolved[0].get(&EntryType::Password),
        Some("p1".to_string())
    );
    assert_eq!(
        resolved[1].get(&EntryType::Password),
        Some("p1".to_string())
    );
    assert_eq!(
        resolved[2].get(&EntryType::Password),
        Some("p1".to_string())
    );
}

#[test]
fn merge_identical_records_unites_patterns() {
    let parser = KeyParser::new();
    let records = parser
        .parse("Host a\nPassword p\nHost b\nPassword p")
        .unwrap();
    let merged = records.merge_same_keyss();
    assert_eq!(merged.len(), 1);
    assert_eq!(
        patterns_of(&merged[0]),
        vec!["a".to_string(), "b".to_string()]
    );
    assert_eq!(merged[0].get(&EntryType::Password), Some("p".to_string()));
}

#[test]
fn merge_keeps_records_with_expansion_marker_separate() {
    let parser = KeyParser::new();
    let records = parser
        .parse("Host a\nPassword x%hx\nHost b\nPassword x%hx")
        .unwrap();
    let merged = records.merge_same_keyss();
    assert_eq!(merged.len(), 2);
    assert_eq!(patterns_of(&merged[0]), vec!["a".to_string()]);
    assert_eq!(patterns_of(&merged[1]), vec!["b".to_string()]);
}

#[test]
fn merge_leaves_differing_records_alone() {
    let parser = KeyParser::new();
    let records = parser
        .parse("Host a\nPassword p\nHost b\nPassword q")
        .unwrap();
    let merged = records.merge_same_keyss();
    assert_eq!(merged.len(), 2);
}

#[test]
fn apply_patterns_twice_is_a_no_op() {
    let parser = KeyParser::new();
    let records = parser
        .parse("Host *.example.com\nPassword p1\nHost a.example.com\nHost b.example.com")
        .unwrap();
    let once = records.apply_patterns();
    let twice = once.apply_patterns();
    assert_eq!(once.len(), twice.len());
    for (x, y) in once.iter().zip(twice.iter()) {
        assert_eq!(patterns_of(x), patterns_of(y));
        assert_eq!(x.get(&EntryType::Password), y.get(&EntryType::Password));
        assert_eq!(x.get(&EntryType::Host), y.get(&EntryType::Host));
    }
}

#[test]
fn apply_patterns_on_pattern_free_records_changes_nothing() {
    let parser = KeyParser::new();
    let records = parser.parse("Host a\nPassword p\nHost b").unwrap();
    let resolved = records.apply_patterns();
    assert_eq!(resolved.len(), 2);
    assert_eq!(patterns_of(&resolved[0]), vec!["a".to_string()]);
    assert_eq!(resolved[0].get(&EntryType::Password), Some("p".to_string()));
    assert_eq!(patterns_of(&resolved[1]), vec!["b".to_string()]);
}

#[test]
fn checked_application_accepts_valid_rules() {
    let parser = KeyParser::new();
    let records = parser
        .parse("Host *.example.com\nPassword p1\nHost a.example.com")
        .unwrap();
    let resolved = apply_patterns_checked(&records).unwrap();
    assert_eq!(resolved.len(), 1);
    assert_eq!(
        resolved[0].get(&EntryType::Password),
        Some("p1".to_string())
    );
}

#[test]
fn checked_application_rejects_invalid_rules() {
    // The pattern holds a wildcard, so a rule is built from it, and its
    // unbalanced parenthesis survives translation: the regex engine
    // rejects the rule.
    let parser = KeyParser::new();
    let records = parser.parse("Host (*\nPassword p1\nHost a").unwrap();
    assert!(apply_patterns_checked(&records).is_none());
}

#[test]
fn names_are_applied_to_records_without_host_entry() {
    let parser = KeyParser::new();
    let records = parser.parse("Host a b\nPassword p").unwrap();
    let named = records.spread().apply_name_to_empty_keysname();
    assert_eq!(named.len(), 2);
    assert_eq!(named[0].get(&EntryType::Host), Some("a".to_string()));
    assert_eq!(named[1].get(&EntryType::Host), Some("b".to_string()));
}

#[test]
fn entries_equality_ignores_order() {
    let mut a = Keychain::new(vec!["a".to_string()]);
    a.update((EntryType::Password, "p".to_string()));
    a.update((EntryType::Match, "m".to_string()));
    let mut b = Keychain::new(vec!["b".to_string()]);
    b.update((EntryType::Match, "m".to_string()));
    b.update((EntryType::Password, "p".to_string()));
    assert!(a.entries_equal(&b));
    b.update((EntryType::Password, "q".to_string()));
    assert!(!a.entries_equal(&b));
}
