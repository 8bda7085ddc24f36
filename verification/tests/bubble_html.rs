use kotoclip_core::dictionary::bubble_html::{
    entry_kind_label, escape_attr, match_hint, occurrence_discriminator, occurrence_label,
    relation_label, same_occurrence_identity,
};
use kotoclip_core::dictionary::model::{
    DictEntry, DictionaryAdapterDiagnostics, DictionaryOccurrenceHeader, DictionarySense,
    DictionaryTag, DictionaryText,
};

fn daijirin_occurrence(id: &str, definition: &str) -> DictEntry {
    DictEntry {
        entry_key: id.to_string(),
        dict_name: "三省堂Super大辞林3.1".to_string(),
        headword: "立つ".to_string(),
        reading: Some("たつ".to_string()),
        is_preferred: false,
        definition_html: String::new(),
        style_profile: "daijirin".to_string(),
        content_blocks: Vec::new(),
        match_type: "exact".to_string(),
        links: Vec::new(),
        occurrence_id: id.to_string(),
        source_record_index: 0,
        entry_kind: "lexical".to_string(),
        header: DictionaryOccurrenceHeader {
            display_form: "立つ".to_string(),
            reading: Some("たつ".to_string()),
            ..DictionaryOccurrenceHeader::default()
        },
        senses: vec![DictionarySense {
            sense_id: "1".to_string(),
            definitions: vec![DictionaryText {
                lang: "ja".to_string(),
                qualifier: None,
                html: definition.to_string(),
            }],
            ..DictionarySense::default()
        }],
        sections: Vec::new(),
        adapter_diagnostics: DictionaryAdapterDiagnostics::default(),
        match_evidence: None,
        raw_definition: None,
    }
}

#[test]
fn occurrence_labels_never_use_sense_body_as_identity() {
    let first = daijirin_occurrence(
        "三省堂Super大辞林3.1\u{1f}128321",
        "座ったり横になったりしていた人が足を伸ばして自分の体を垂直の姿勢にする。",
    );
    let second =
        daijirin_occurrence("三省堂Super大辞林3.1\u{1f}128322", "和船で，各種の柱の称。");
    let peers = vec![&first, &second];

    let first_label = occurrence_label(&first, &peers);
    let second_label = occurrence_label(&second, &peers);

    assert_eq!(first_label, "立つ · 同形条目 1/2");
    assert_eq!(second_label, "立つ · 同形条目 2/2");
    assert!(!first_label.contains("座ったり"));
    assert!(!second_label.contains("和船"));
}

fn tag(label: &str) -> DictionaryTag {
    DictionaryTag { kind: "pos".to_string(), label: label.to_string() }
}

#[test]
fn occurrence_labels_prefer_unique_discriminators() {
    let mut first = daijirin_occurrence("a", "x");
    first.header.pos_tags = vec![tag("動"), tag(""), tag("自")];
    first.header.usage_tags = vec![tag("古")];
    let mut second = daijirin_occurrence("b", "y");
    second.header.pos_tags = vec![tag("名")];
    let mut other = daijirin_occurrence("c", "z");
    other.headword = "経つ".to_string();
    other.header.display_form = String::new();
    other.entry_kind = "kanji".to_string();
    assert_eq!(occurrence_discriminator(&first).as_deref(), Some("動 / 自"));
    assert!(same_occurrence_identity(&first, &second));
    assert!(!same_occurrence_identity(&first, &other));
    let peers = vec![&first, &second, &other];
    assert_eq!(occurrence_label(&first, &peers), "立つ · 動 / 自");
    assert_eq!(occurrence_label(&second, &peers), "立つ · 名");
    assert_eq!(occurrence_label(&other, &peers), "経つ · 汉字条");
    assert_eq!(occurrence_discriminator(&other).as_deref(), Some("汉字条"));
}

#[test]
fn kind_relation_and_match_labels() {
    assert_eq!(entry_kind_label("surname"), "姓氏");
    assert_eq!(entry_kind_label("unknown"), "词汇");
    assert_eq!(relation_label("internal_reference"), "参照");
    assert_eq!(relation_label("other"), "关联");
    assert_eq!(match_hint("fuzzy"), Some("模糊命中"));
    assert_eq!(match_hint("exact"), None);
    assert_eq!(escape_attr("a`<b>"), "a&#96;&lt;b&gt;");
}
