use kotoclip_core::dictionary::lookup_rules::{
    compatibility_redirect_target, dictionary_sense_tags, is_kana_query, is_substantive, merge_timing,
    ordered_dictionary_names, reading_candidates,
};
use kotoclip_core::dictionary::model::{
    DictEntry, DictionaryLookupTiming, DictionaryOccurrenceHeader, DictionarySense, DictionaryTag,
};

fn entry(kind: &str, senses: Vec<DictionarySense>) -> DictEntry {
    DictEntry {
        entry_key: "k".to_string(),
        dict_name: "大辞林".to_string(),
        headword: "鍵".to_string(),
        reading: None,
        is_preferred: false,
        definition_html: String::new(),
        style_profile: String::new(),
        content_blocks: Vec::new(),
        match_type: "exact_form".to_string(),
        links: Vec::new(),
        occurrence_id: "k".to_string(),
        source_record_index: 0,
        entry_kind: kind.to_string(),
        header: DictionaryOccurrenceHeader::default(),
        senses,
        sections: Vec::new(),
        adapter_diagnostics: Default::default(),
        match_evidence: None,
        raw_definition: None,
    }
}

fn tag(label: &str) -> DictionaryTag {
    DictionaryTag { kind: "pos".to_string(), label: label.to_string() }
}

#[test]
fn only_entries_with_content_that_do_not_point_elsewhere_are_substantive() {
    assert!(is_substantive(&entry("lexical", vec![DictionarySense::default()])));
    assert!(!is_substantive(&entry("lexical", Vec::new())));
    assert!(!is_substantive(&entry("redirect", vec![DictionarySense::default()])));
    assert!(!is_substantive(&entry("navigation", vec![DictionarySense::default()])));
}

#[test]
fn priority_list_orders_available_dictionaries_first() {
    let available = vec!["大辞林".to_string(), "Crown".to_string(), "小学館".to_string()];
    let priority = vec!["小学館".to_string(), "無い".to_string(), "大辞林".to_string()];
    assert_eq!(
        ordered_dictionary_names(available, &priority),
        vec!["小学館".to_string(), "大辞林".to_string(), "Crown".to_string()]
    );
    assert_eq!(
        ordered_dictionary_names(vec!["a".to_string(), "a".to_string()], &[]),
        vec!["a".to_string()]
    );
}

#[test]
fn redirect_timings_add_up() {
    let mut target = DictionaryLookupTiming {
        resource_wait_ms: 9,
        service_ms: 8,
        redirect_ms: 1,
        sqlite_ms: 2,
        definition_ms: 3,
        presentation_ms: 4,
        definition_cache_hits: 5,
        definition_cache_misses: 6,
        entries: 7,
    };
    let source = DictionaryLookupTiming {
        resource_wait_ms: 100,
        service_ms: 100,
        redirect_ms: 10,
        sqlite_ms: 20,
        definition_ms: 30,
        presentation_ms: 40,
        definition_cache_hits: 50,
        definition_cache_misses: 60,
        entries: 100,
    };
    merge_timing(&mut target, source);
    assert_eq!(target.redirect_ms, 11);
    assert_eq!(target.sqlite_ms, 22);
    assert_eq!(target.definition_ms, 33);
    assert_eq!(target.presentation_ms, 44);
    assert_eq!(target.definition_cache_hits, 55);
    assert_eq!(target.definition_cache_misses, 66);
    assert_eq!((target.resource_wait_ms, target.service_ms, target.entries), (9, 8, 7));
}

#[test]
fn colloquial_spelling_redirects_to_its_entry() {
    assert_eq!(compatibility_redirect_target("だっせえ"), Some("ダサい"));
    assert_eq!(compatibility_redirect_target("だ・っせえ"), Some("ダサい"));
    assert_eq!(compatibility_redirect_target("ださい"), None);
}

#[test]
fn nested_sense_tags_follow_their_parents() {
    let child = DictionarySense { tags: vec![tag("b")], ..Default::default() };
    let sense = DictionarySense { tags: vec![tag("a")], children: vec![child], ..Default::default() };
    let labels: Vec<&str> = dictionary_sense_tags(&sense).iter().map(|t| t.label.as_str()).collect();
    assert_eq!(labels, vec!["a", "b"]);
}

#[test]
fn kana_queries_are_kana_after_normalising() {
    assert!(is_kana_query("つなぐ"));
    assert!(is_kana_query("ツナ・グ"));
    assert!(is_kana_query("ー"));
    assert!(!is_kana_query("繋ぐ"));
    assert!(!is_kana_query(""));
}

#[test]
fn conjugated_readings_also_look_up_the_dictionary_ending() {
    assert_eq!(reading_candidates("繋ぐ", "つなげ"), vec!["ツナゲ".to_string(), "ツナグ".to_string()]);
    assert_eq!(reading_candidates("ダサい", "だっせえ"), vec!["ダッセエ".to_string(), "ダッセエイ".to_string()]);
    assert_eq!(reading_candidates("鍵", "かぎ"), vec!["カギ".to_string()]);
    assert_eq!(reading_candidates("繋ぐ", "つなぐ"), vec!["ツナグ".to_string()]);
}
