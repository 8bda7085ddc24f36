use kotoclip_core::dictionary::lookup_state::{
    build_form_groups, collect_form_seeds, expand_form, normalize_form_identity,
    normalize_reading_identity, selected_form_id, DictionaryFormSeed, DictionaryFormVariantSeed,
};
use kotoclip_core::dictionary::model::{
    DictEntry, DictionaryForm, DictionaryMatchEvidence, DictionaryOccurrenceHeader,
};

fn entry(
    dictionary: &str,
    occurrence: &str,
    form: &str,
    reading: &str,
    match_type: &str,
    score: i32,
) -> DictEntry {
    DictEntry {
        entry_key: occurrence.to_string(),
        dict_name: dictionary.to_string(),
        headword: form.to_string(),
        reading: Some(reading.to_string()),
        is_preferred: false,
        definition_html: String::new(),
        style_profile: String::new(),
        content_blocks: Vec::new(),
        match_type: match_type.to_string(),
        links: Vec::new(),
        occurrence_id: occurrence.to_string(),
        source_record_index: 0,
        entry_kind: "lexical".to_string(),
        header: DictionaryOccurrenceHeader {
            display_form: form.to_string(),
            reading: Some(reading.to_string()),
            scoped_forms: vec![DictionaryForm {
                form: form.to_string(),
                reading: Some(reading.to_string()),
                kind: "canonical".to_string(),
            }],
            ..Default::default()
        },
        senses: Vec::new(),
        sections: Vec::new(),
        adapter_diagnostics: Default::default(),
        match_evidence: Some(DictionaryMatchEvidence {
            kind: match_type.to_string(),
            score,
            ..Default::default()
        }),
        raw_definition: None,
    }
}

#[test]
fn same_form_across_dictionaries_and_readings_is_one_row() {
    let entries = vec![
        entry("大辞林", "one", "行く", "いく", "exact_form", 200),
        entry("小学馆", "two", "行く", "ゆく", "exact_form", 150),
        entry("Crown", "three", "行く", "いく", "exact_form", 160),
    ];
    let seeds = collect_form_seeds("行く", Some("行く"), Some("イク"), &entries);
    assert_eq!(seeds.len(), 1);
    assert_eq!(seeds[0].display_form, "行く");
    assert_eq!(seeds[0].readings, vec!["いく", "ゆく"]);
}

#[test]
fn normalization_keeps_original_forms_and_observed_form_priority() {
    let entries = vec![entry(
        "大辞林",
        "one",
        "イク",
        "いく",
        "reading_fallback",
        300,
    )];
    let seeds = collect_form_seeds("いく", Some("いく"), Some("イク"), &entries);
    assert_eq!(seeds.len(), 1);
    assert_eq!(seeds[0].display_form, "いく");
    assert_eq!(seeds[0].variants.len(), 2);
    assert_eq!(seeds[0].variants[0].surface_form, "いく");
    assert_eq!(seeds[0].variants[1].surface_form, "イク");
    assert!(seeds[0].variants[0].score > seeds[0].variants[1].score);
    assert!(seeds[0].variants[0].dictionary_names.is_empty());
}

#[test]
fn compatibility_group_keeps_each_original_surface_and_source() {
    let entries = vec![
        entry("大辞林", "one", "繫ぐ", "つなぐ", "exact_form", 200),
        entry("小学馆", "two", "繋ぐ", "つなぐ", "exact_form", 200),
    ];
    let seeds = collect_form_seeds("繫ぐ", Some("繋ぐ"), Some("ツナグ"), &entries);
    assert_eq!(seeds.len(), 1);
    assert_eq!(seeds[0].display_form, "繋ぐ");
    assert_eq!(seeds[0].variants.len(), 2);
    assert_eq!(seeds[0].variants[0].surface_form, "繋ぐ");
    assert_eq!(seeds[0].variants[0].dictionary_names, vec!["小学馆"]);
    assert_eq!(seeds[0].variants[1].surface_form, "繫ぐ");
    assert_eq!(seeds[0].variants[1].dictionary_names, vec!["大辞林"]);
}

#[test]
fn incompatible_alias_is_rejected_but_other_readings_of_admitted_form_remain() {
    let entries = vec![
        entry("大辞林", "one", "熟れる", "なれる", "explicit_alias", 170),
        entry("小学馆", "two", "熟れる", "うれる", "explicit_alias", 70),
        entry("大辞林", "three", "縄", "なわ", "explicit_alias", 70),
    ];
    let seeds = collect_form_seeds("なれる", None, Some("ナレル"), &entries);
    assert_eq!(seeds.len(), 1);
    assert_eq!(seeds[0].display_form, "熟れる");
    assert_eq!(seeds[0].readings, vec!["なれる", "うれる"]);
}

#[test]
fn expands_kanji_alternatives_without_splitting_katakana_compounds() {
    assert_eq!(
        expand_form("擦る・磨る・摺る"),
        vec!["擦る", "磨る", "摺る"]
    );
    assert_eq!(expand_form("オープン・カー"), vec!["オープン・カー"]);
    assert_eq!(
        expand_form("寄り掛（か）る"),
        vec!["寄り掛かる", "寄り掛る"]
    );
}

#[test]
fn every_form_contains_the_global_dictionary_columns() {
    let seeds = vec![DictionaryFormSeed {
        display_form: "頑張る".to_string(),
        normalized_form: "頑張る".to_string(),
        readings: vec!["がんばる".to_string()],
        evidence: Vec::new(),
        score: 1,
        variants: vec![DictionaryFormVariantSeed {
            surface_form: "頑張る".to_string(),
            readings: vec!["がんばる".to_string()],
            evidence: Vec::new(),
            score: 1,
            dictionary_names: vec!["大辞林".to_string(), "Crown".to_string()],
            order: 0,
        }],
        available_dictionary_names: vec!["大辞林".to_string(), "Crown".to_string()],
        order: 0,
        admissible: true,
    }];
    let names = vec![
        "大辞林".to_string(),
        "小学馆".to_string(),
        "Crown".to_string(),
    ];
    let groups = build_form_groups(seeds, &names);
    assert_eq!(groups[0].dictionaries.len(), 3);
    assert!(groups[0].dictionaries[0].available);
    assert!(!groups[0].dictionaries[1].available);
    assert!(groups[0].dictionaries[2].available);
}

#[test]
fn equal_scores_prefer_broader_dictionary_coverage_without_dropping_forms() {
    let make_seed = |form: &str, dictionaries: Vec<String>, order: usize| DictionaryFormSeed {
        display_form: form.to_string(),
        normalized_form: form.to_string(),
        readings: Vec::new(),
        evidence: Vec::new(),
        score: 100,
        variants: vec![DictionaryFormVariantSeed {
            surface_form: form.to_string(),
            readings: Vec::new(),
            evidence: Vec::new(),
            score: 100,
            dictionary_names: dictionaries.clone(),
            order: 0,
        }],
        available_dictionary_names: dictionaries,
        order,
        admissible: true,
    };
    let groups = build_form_groups(
        vec![
            make_seed("眼張る", vec!["大辞林".to_string()], 0),
            make_seed(
                "頑張る",
                vec![
                    "大辞林".to_string(),
                    "小学馆".to_string(),
                    "Crown".to_string(),
                ],
                1,
            ),
        ],
        &[
            "大辞林".to_string(),
            "小学馆".to_string(),
            "Crown".to_string(),
        ],
    );
    assert_eq!(groups.len(), 2);
    assert_eq!(groups[0].display_form, "頑張る");
    assert_eq!(groups[1].display_form, "眼張る");
}

#[test]
fn identities_fold_width_kana_and_variants() {
    assert_eq!(normalize_form_identity("ｲｸ"), "いく");
    assert_eq!(normalize_form_identity(" 繋 ぐ "), "繫ぐ");
    assert_eq!(normalize_reading_identity("ナレル"), "なれる");
    assert_eq!(normalize_form_identity("行く"), "行く");
}

#[test]
fn selected_form_prefers_requested_form_then_first_row() {
    let names = vec!["大辞林".to_string()];
    let seeds = collect_form_seeds(
        "行く",
        None,
        None,
        &[entry("大辞林", "one", "行く", "いく", "exact_form", 10)],
    );
    let groups = build_form_groups(seeds, &names);
    assert_eq!(groups[0].form_id, "form:行く");
    assert_eq!(selected_form_id(&groups, Some("行く")), Some("form:行く".to_string()));
    assert_eq!(selected_form_id(&groups, Some("走る")), Some("form:行く".to_string()));
    assert_eq!(selected_form_id(&[], None), None);
}
