use kotoclip_core::export::extract_sentence_and_offset;

#[test]
fn sentence_is_cut_at_terminators_around_the_range() {
    let text = "前の文。彼は走った！次\nの行";
    let (sentence, range) = extract_sentence_and_offset(text, (5, 7));
    assert_eq!(sentence, "彼は走った！");
    assert_eq!(range, (1, 3));
    let (sentence, range) = extract_sentence_and_offset(text, (10, 11));
    assert_eq!(sentence, "次");
    assert_eq!(range, (0, 1));
    let (sentence, range) = extract_sentence_and_offset(text, (3, 20));
    assert_eq!(sentence, text);
    assert_eq!(range, (0, text.chars().count()));
}

use kotoclip_core::export::{export_root, ExportEntry};

fn word(base: &str, reading: &str, range: Option<(usize, usize)>, levels: Vec<u8>) -> ExportEntry {
    ExportEntry {
        surface: base.to_string(),
        base_form: base.to_string(),
        reading: reading.to_string(),
        pos: "名詞".to_string(),
        grammar_tags: vec!["tag".to_string()],
        jlpt_levels: levels,
        char_range: range,
        context_sentence: "与えられた文".to_string(),
        context_highlight: (1, 2),
        definitions: Vec::new(),
        user_note: "note".to_string(),
    }
}

#[test]
fn export_keeps_first_entry_of_each_word() {
    let text = "前の文。彼は走った！";
    let root = export_root(
        text,
        vec![
            word("走る", "はしる", Some((6, 8)), vec![3, 5, 3, 1]),
            word("走る", "はしる", None, vec![2]),
            word("走る", "そうる", None, vec![]),
        ],
        "2024-01-01T00:00:00+00:00".to_string(),
    );
    assert_eq!(root.version, "1.0");
    assert_eq!(root.exported_at, "2024-01-01T00:00:00+00:00");
    assert_eq!(
        root.source_text_hash,
        format!("sha256:{}", kotoclip_core::cache::source_hash(text))
    );
    assert!(root.source_text_hash.starts_with("sha256:") && root.source_text_hash.len() == 7 + 64);
    assert_eq!(root.entries.len(), 2);
    assert_eq!(root.entries[0].jlpt_levels, vec![1, 3, 5]);
    assert_eq!(root.entries[0].context.sentence, "彼は走った！");
    assert_eq!(root.entries[0].context.highlight_range, (2, 4));
    assert_eq!(root.entries[1].reading, "そうる");
    assert_eq!(root.entries[1].context.sentence, "与えられた文");
    assert_eq!(root.entries[1].context.highlight_range, (1, 2));
}

#[test]
fn export_hash_of_empty_text() {
    let root = export_root("", Vec::new(), String::new());
    assert_eq!(
        root.source_text_hash,
        "sha256:e3b0c44298fc1c149afbf4c8996fb92427ae41e4649b934ca495991b7852b855"
    );
    assert!(root.entries.is_empty());
}
