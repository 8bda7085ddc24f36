use kotoclip_core::coverage_audit::{
    audit_lines, audit_window, is_audited_head, ranked_misses, retry_with_surface, CoverageTally,
};

#[test]
fn window_follows_pages_or_start_line() {
    assert_eq!(audit_window(0, 1, 1, None, 10), (1, 10));
    assert_eq!(audit_window(5, 2, 1, None, 12), (6, 10));
    assert_eq!(audit_window(5, 0, 1, None, 12), (1, 5));
    assert_eq!(audit_window(0, 1, 3, Some(100), 10), (3, 10));
    assert_eq!(audit_window(0, 1, 0, Some(2), 10), (1, 2));
    assert_eq!(audit_window(0, 1, 4, Some(usize::MAX), 10), (4, 10));
}

#[test]
fn sampled_lines_skip_blanks() {
    let lines: Vec<String> = ["a", "", "b", "c", "  "].iter().map(|s| s.to_string()).collect();
    assert_eq!(audit_lines(&lines, 1, 5, 2), vec![0, 2]);
    assert_eq!(audit_lines(&lines, 2, 4, 0), vec![2, 3]);
    assert!(audit_lines(&lines, 6, 5, 1).is_empty());
}

#[test]
fn head_words_are_filtered() {
    assert!(is_audited_head("名詞", "猫", "猫"));
    assert!(!is_audited_head("助詞", "が", "が"));
    assert!(!is_audited_head("名詞", "  ", "猫"));
    assert!(!is_audited_head("名詞", "記号", "・"));
    assert!(retry_with_surface(&None, "食べる", "食べ"));
    assert!(!retry_with_surface(&None, "猫", "猫"));
    assert!(!retry_with_surface(&Some("headword".to_string()), "食べる", "食べ"));
}

#[test]
fn misses_are_tallied_and_ranked() {
    let mut tally = CoverageTally::new();
    tally.record("猫", "ねこ", "猫", Some("headword"));
    tally.record("犬", "いぬ", "犬", Some("reading"));
    tally.record("b", "x", "b2", None);
    tally.record("a", "y", "a1", None);
    tally.record("b", "x", "b1", Some("other"));
    tally.record("b", "x", "b2", None);
    tally.record("a", "x", "a2", None);
    assert_eq!(
        (tally.lexical_occurrences, tally.headword_matches, tally.reading_matches),
        (7, 1, 1)
    );
    let keys: Vec<(&str, &str)> =
        tally.misses.iter().map(|m| (m.base_form.as_str(), m.reading.as_str())).collect();
    assert_eq!(keys, vec![("a", "x"), ("a", "y"), ("b", "x")]);
    assert_eq!(tally.misses[2].surfaces, vec!["b1".to_string(), "b2".to_string()]);
    assert_eq!(tally.misses[2].occurrences, 3);
    let ranked = ranked_misses(tally.misses, 2);
    let order: Vec<(&str, &str, usize)> =
        ranked.iter().map(|m| (m.base_form.as_str(), m.reading.as_str(), m.occurrences)).collect();
    assert_eq!(order, vec![("b", "x", 3), ("a", "x", 1)]);
}
