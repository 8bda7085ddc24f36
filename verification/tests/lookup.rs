use kotoclip_core::dictionary::lookup::{
    normalize_form, normalize_reading, pos_compatibility, rank_entries, score_entry, str_less,
};
use kotoclip_core::dictionary::model::{
    DictEntry, DictionaryMatchEvidence, DictionaryOccurrenceHeader, DictionarySense, DictionaryTag,
    PosTag,
};

fn entry(dictionary: &str, form: &str, reading: Option<&str>, match_type: &str, kind: &str, index: usize) -> DictEntry {
    DictEntry {
        entry_key: format!("{dictionary}:{index}"),
        dict_name: dictionary.to_string(),
        headword: form.to_string(),
        reading: reading.map(str::to_string),
        is_preferred: true,
        definition_html: String::new(),
        style_profile: String::new(),
        content_blocks: Vec::new(),
        match_type: match_type.to_string(),
        links: Vec::new(),
        occurrence_id: format!("{dictionary}:{index}"),
        source_record_index: index,
        entry_kind: kind.to_string(),
        header: DictionaryOccurrenceHeader {
            display_form: form.to_string(),
            ..Default::default()
        },
        senses: Vec::new(),
        sections: Vec::new(),
        adapter_diagnostics: Default::default(),
        match_evidence: Some(DictionaryMatchEvidence {
            kind: match_type.to_string(),
            ..Default::default()
        }),
        raw_definition: None,
    }
}

fn tag(kind: &str, label: &str) -> DictionaryTag {
    DictionaryTag {
        kind: kind.to_string(),
        label: label.to_string(),
    }
}

fn pos(major: &str, sub1: &str) -> PosTag {
    PosTag {
        major: major.to_string(),
        sub1: sub1.to_string(),
        sub2: String::new(),
        sub3: String::new(),
    }
}

fn score_of(entry: &DictEntry) -> i32 {
    entry.match_evidence.as_ref().map_or(0, |evidence| evidence.score)
}

#[test]
fn form_key_folds_width_variants_and_drops_marks() {
    assert_eq!(normalize_form("ｶﾀ・カナ　-繋"), "カタカナ繫");
    assert_eq!(normalize_form(" 食べ る "), "食べる");
}

#[test]
fn reading_key_writes_hiragana_in_katakana() {
    assert_eq!(normalize_reading("たべる"), "タベル");
    assert_eq!(normalize_reading("ゔぁ・いおりん"), "ヴァイオリン");
    assert_eq!(normalize_reading("カタ"), "カタ");
}

#[test]
fn strings_order_by_code_point() {
    assert!(str_less("a", "b"));
    assert!(str_less("ab", "abc"));
    assert!(!str_less("abc", "ab"));
    assert!(!str_less("a", "a"));
    assert!(str_less("", "a"));
}

#[test]
fn parts_of_speech_agree_through_headers_and_nested_senses() {
    let mut verb = entry("大辞林", "食べる", None, "exact_headword", "lexical", 0);
    verb.header.pos_tags.push(tag("pos", "動下一"));
    assert_eq!(pos_compatibility(Some(&pos("動詞", "一般")), &verb), "exact");
    assert_eq!(pos_compatibility(Some(&pos("名詞", "一般")), &verb), "conflict");
    assert_eq!(pos_compatibility(Some(&pos("記号", "")), &verb), "unknown");
    assert_eq!(pos_compatibility(None, &verb), "unknown");

    let mut nested = entry("大辞林", "山", None, "exact_headword", "lexical", 0);
    let mut child = DictionarySense::default();
    child.tags.push(tag("pos", "名"));
    child.tags.push(tag("usage", "動"));
    let mut parent = DictionarySense::default();
    parent.children.push(child);
    nested.senses.push(parent);
    assert_eq!(pos_compatibility(Some(&pos("名詞", "一般")), &nested), "exact");
    assert_eq!(pos_compatibility(Some(&pos("動詞", "一般")), &nested), "conflict");

    let mut phrase = entry("大辞林", "に対して", None, "exact_headword", "lexical", 0);
    phrase.header.pos_tags.push(tag("pos", "連語"));
    assert_eq!(pos_compatibility(Some(&pos("助詞", "")), &phrase), "unknown");
}

#[test]
fn entries_without_labels_agree_by_kind() {
    let surname = entry("大辞林", "佐藤", None, "exact_headword", "surname", 0);
    assert_eq!(pos_compatibility(Some(&pos("名詞", "固有名詞")), &surname), "compatible");
    assert_eq!(pos_compatibility(Some(&pos("動詞", "")), &surname), "conflict");
    let suffix = entry("大辞林", "さ", None, "exact_headword", "suffix", 0);
    assert_eq!(pos_compatibility(Some(&pos("名詞", "接尾")), &suffix), "compatible");
    assert_eq!(pos_compatibility(Some(&pos("名詞", "一般")), &suffix), "conflict");
    let word = entry("大辞林", "山", None, "exact_headword", "lexical", 0);
    assert_eq!(pos_compatibility(Some(&pos("名詞", "一般")), &word), "unknown");
}

#[test]
fn score_records_evidence_and_penalties() {
    let bound = entry("大辞林", "さ", Some("-さ"), "exact_form", "suffix", 0);
    let scored = score_entry(bound, "さ", &normalize_form("さ"), None, None);
    let evidence = scored.match_evidence.as_ref().unwrap();
    assert_eq!(evidence.score, 160 + 45 - 75 - 60);
    assert_eq!(evidence.penalties, vec!["bound_morpheme".to_string()]);
    assert_eq!(evidence.reading_match, "absent");
    assert_eq!(evidence.pos_match, "unknown");
    assert_eq!(evidence.query_form, "さ");
    assert!(!scored.is_preferred);

    let mut noun = entry("大辞林", "山", Some("やま"), "explicit_alias", "lexical", 0);
    noun.header.pos_tags.push(tag("pos", "名"));
    let scored = score_entry(noun, "峰", &normalize_form("峰"), Some("カワ"), Some(&pos("動詞", "")));
    let evidence = scored.match_evidence.as_ref().unwrap();
    assert_eq!(evidence.score, 120 - 45 - 20);
    assert_eq!(
        evidence.penalties,
        vec!["reading_conflict".to_string(), "pos_conflict".to_string()]
    );
    assert_eq!(evidence.requested_reading.as_deref(), Some("カワ"));
    assert_eq!(evidence.reading_match, "conflict");
    assert_eq!(evidence.pos_match, "conflict");

    let hyphenated = entry("大辞林", "-さ", Some("-さ"), "fuzzy", "suffix", 0);
    let scored = score_entry(hyphenated, "-さ", &normalize_form("-さ"), None, None);
    let evidence = scored.match_evidence.as_ref().unwrap();
    assert_eq!(evidence.score, 10 + 45);
    assert!(evidence.penalties.is_empty());
}

#[test]
fn entries_without_evidence_keep_none() {
    let mut plain = entry("大辞林", "山", None, "exact_headword", "kanji", 0);
    plain.match_evidence = None;
    let scored = score_entry(plain, "山", &normalize_form("山"), None, None);
    assert!(scored.match_evidence.is_none());
    assert!(!scored.is_preferred);
}

#[test]
fn ranking_orders_by_score_and_prefers_a_clear_winner() {
    let mut entries = vec![
        entry("大辞林", "食べる", Some("たべる"), "reading_fallback", "lexical", 1),
        entry("クラウン", "食べる", None, "exact_form", "navigation", 0),
        entry("大辞林", "食べる", Some("たべる"), "exact_headword", "lexical", 0),
    ];
    rank_entries(&mut entries, "食べる", Some("タベル"), None);
    let order = entries
        .iter()
        .map(|entry| (entry.dict_name.as_str(), entry.source_record_index, score_of(entry)))
        .collect::<Vec<_>>();
    assert_eq!(
        order,
        vec![("大辞林", 0, 255), ("大辞林", 1, 130), ("クラウン", 0, 85)]
    );
    assert!(entries[0].is_preferred);
    assert!(!entries[1].is_preferred);
    assert!(entries[2].is_preferred);
    assert_eq!(
        entries[2].match_evidence.as_ref().unwrap().penalties,
        vec!["navigation_only".to_string()]
    );
}

#[test]
fn ranking_breaks_ties_by_dictionary_name_and_needs_a_margin() {
    let mut entries = vec![
        entry("b", "山", None, "exact_form", "lexical", 3),
        entry("a", "山", None, "exact_form", "lexical", 2),
        entry("a", "川", None, "exact_form", "lexical", 1),
        entry("b", "川", None, "exact_form", "lexical", 0),
    ];
    rank_entries(&mut entries, "山", None, None);
    let order = entries
        .iter()
        .map(|entry| (entry.dict_name.as_str(), entry.source_record_index, score_of(entry)))
        .collect::<Vec<_>>();
    assert_eq!(
        order,
        vec![("a", 2, 205), ("b", 3, 205), ("a", 1, 160), ("b", 0, 160)]
    );
    assert!(entries.iter().filter(|entry| entry.is_preferred).count() == 2);

    let mut close = vec![
        entry("a", "山", None, "compatibility_alias", "lexical", 0),
        entry("a", "山", None, "explicit_alias", "lexical", 1),
    ];
    rank_entries(&mut close, "川", None, None);
    assert_eq!(score_of(&close[0]), 120);
    assert_eq!(score_of(&close[1]), 105);
    assert!(!close[0].is_preferred && !close[1].is_preferred);
}

#[test]
fn a_substantive_entry_beats_a_pointer_of_its_dictionary() {
    let mut entries = vec![
        entry("a", "山", None, "exact_headword", "redirect", 0),
        entry("a", "山", None, "reading_fallback", "lexical", 1),
    ];
    rank_entries(&mut entries, "山", None, None);
    assert_eq!(score_of(&entries[0]), 180 + 45 - 120);
    assert_eq!(entries[0].entry_kind, "redirect");
    assert!(!entries[0].is_preferred);
    assert_eq!(score_of(&entries[1]), 55 + 45);
    assert!(entries[1].is_preferred);
}
