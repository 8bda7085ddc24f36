use kotoclip_core::dictionary::bubble_preview::{generate_bubble_preview_html, LookupCandidate};
use kotoclip_core::dictionary::model::{
    DictEntry, DictionaryAdapterDiagnostics, DictionaryContentBlock, DictionaryLink,
    DictionaryLookup, DictionaryLookupTiming, DictionaryMatchEvidence, DictionaryOccurrenceHeader,
    DictionaryPronunciation,
};

fn entry(dict: &str, id: &str, preferred: bool) -> DictEntry {
    DictEntry {
        entry_key: id.to_string(),
        dict_name: dict.to_string(),
        headword: "立つ".to_string(),
        reading: Some("たつ".to_string()),
        is_preferred: preferred,
        definition_html: String::new(),
        style_profile: "daijirin".to_string(),
        content_blocks: vec![DictionaryContentBlock {
            kind: "sense".to_string(),
            label: Some("一".to_string()),
            html: "<p>まっすぐ</p>".to_string(),
        }],
        match_type: "exact".to_string(),
        links: vec![
            DictionaryLink { target: "座る".to_string(), label: String::new(), relation: "antonym".to_string() },
            DictionaryLink { target: "x".to_string(), label: "x".to_string(), relation: "candidate".to_string() },
        ],
        occurrence_id: id.to_string(),
        source_record_index: 0,
        entry_kind: "lexical".to_string(),
        header: DictionaryOccurrenceHeader {
            display_form: "立つ".to_string(),
            pronunciations: vec![DictionaryPronunciation {
                system: "accent".to_string(),
                label: "アクセント".to_string(),
                value: "1".to_string(),
            }],
            ..DictionaryOccurrenceHeader::default()
        },
        senses: Vec::new(),
        sections: Vec::new(),
        adapter_diagnostics: DictionaryAdapterDiagnostics {
            coverage: "partial".to_string(),
            warnings: vec!["a<b".to_string()],
            omitted: Vec::new(),
        },
        match_evidence: Some(DictionaryMatchEvidence {
            kind: "fuzzy".to_string(),
            reading_match: "exact".to_string(),
            pos_match: "none".to_string(),
            score: -3,
            ..DictionaryMatchEvidence::default()
        }),
        raw_definition: None,
    }
}

fn lookup(entries: Vec<DictEntry>) -> DictionaryLookup {
    DictionaryLookup {
        query: "立つ".to_string(),
        observed_form: None,
        reading: Some("たつ".to_string()),
        pos: None,
        selected_form_id: None,
        mode: "hover".to_string(),
        forms: Vec::new(),
        dictionary_names: vec!["大辞林".to_string(), "空".to_string()],
        entries,
        timing: Some(DictionaryLookupTiming { service_ms: 12, sqlite_ms: 3, definition_ms: 4, presentation_ms: 5, ..DictionaryLookupTiming::default() }),
    }
}

#[test]
fn empty_lookup_says_nothing_was_found() {
    let html = generate_bubble_preview_html(&lookup(Vec::new()), &[], None, None, ".x{}");
    assert!(html.starts_with("<!doctype html><html lang=\"ja\">"));
    assert!(html.contains("<title>Kotoclip 词典 Lookup 预览 - 立つ</title><style>"));
    assert!(html.contains(".x{}</style>"));
    assert!(html.contains("<span>请求读音 たつ</span><span>模式 hover</span><span>0 个 occurrence</span><span>2 本词典</span>"));
    assert!(html.contains("<strong>12 ms</strong><span>SQLite 3 · 释义 4 · 适配 5</span>"));
    assert!(html.contains("<div class=\"empty-state\">未找到满足当前质量门的词条。</div>"));
    assert!(html.ends_with("</body></html>"));
}

#[test]
fn dictionaries_panes_and_entries_are_rendered() {
    let entries = vec![entry("大辞林", "o1", false), entry("大辞林", "o2", false), entry("新明解", "o3", true)];
    let candidates = vec![LookupCandidate {
        target: "発つ".to_string(),
        label: String::new(),
        dictionary_names: vec!["大辞林".to_string(), "新明解".to_string()],
    }];
    let html = generate_bubble_preview_html(&lookup(entries), &candidates, Some("発つ"), Some("o2"), "");
    assert!(html.contains("<button type=\"button\" class=\"preview-choice candidate-choice active\" data-target=\"発つ\" data-dictionaries=\"大辞林\u{1f}新明解\" title=\"発つ\">発つ</button>"));
    assert!(html.contains("当前：発つ"));
    assert!(html.contains("<button type=\"button\" class=\"preview-choice dictionary-choice active\" data-dictionary=\"大辞林\">大辞林</button>"));
    assert!(html.contains("<button type=\"button\" class=\"preview-choice dictionary-choice unavailable\" data-dictionary=\"空\">空 · 无当前释义</button>"));
    assert!(html.contains("data-dictionary=\"新明解\">新明解</button>"));
    assert!(html.contains("<section class=\"preview-dictionary-pane active\" data-dictionary-pane=\"大辞林\">"));
    assert!(html.contains("<section class=\"preview-dictionary-pane\" data-dictionary-pane=\"新明解\">"));
    assert!(!html.contains("data-dictionary-pane=\"空\""));
    assert!(html.contains("词条<span class=\"ambiguity-badge\">未消歧</span>"));
    assert!(html.contains("<button type=\"button\" class=\"preview-choice occurrence-choice active\" data-occurrence=\"o2\" title=\"读音：たつ；词汇；命中：fuzzy / POS：none / 分数：-3\">立つ · 同形条目 2/2</button>"));
    assert!(html.contains("<article class=\"preview-entry active\" data-occurrence-pane=\"o2\">"));
    assert!(html.contains("<article class=\"preview-entry\" data-occurrence-pane=\"o1\">"));
    assert!(html.contains("<article class=\"preview-entry active\" data-occurrence-pane=\"o3\">"));
    assert!(html.contains("<span class=\"preview-headword\">立つ</span><span class=\"preview-reading\">【たつ】</span>"));
    assert!(html.contains("<span class=\"preview-tag\" data-kind=\"match\">模糊命中</span><span class=\"preview-tag ambiguity-badge\">候选未消歧</span>"));
    assert!(html.contains("<div class=\"preview-header-facts\"><div>アクセント 1</div><div>证据 fuzzy · 读音 exact · POS none · -3</div></div>"));
    assert!(html.contains("<section class=\"dictionary-module dictionary-module--sense\"><h4 class=\"dictionary-module__label\">一</h4><div class=\"dictionary-module__body\"><p>まっすぐ</p></div></section>"));
    assert!(html.contains("<div class=\"preview-relations\"><span class=\"preview-relation\" data-relation=\"antonym\"><small>反义</small>座る</span></div>"));
    assert!(html.contains("<summary>适配诊断 · partial</summary><ul><li class=\"warning\">a&lt;b</li></ul>"));
}
