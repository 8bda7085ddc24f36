use html5ever::tendril::StrTendril;
use html5ever::tokenizer::{
    BufferQueue, CharacterTokens, EndTag, StartTag, TagToken, Token, TokenSink, TokenSinkResult,
    Tokenizer,
};
use kotoclip_core::dictionary::adapters::shogakukan::adapt;
use kotoclip_core::dictionary::adapters::shogakukan_text::{
    bound_kind, remove_once, shogakukan_foreign_origin, split_top_level_phrases, subhead_label,
    trim_outer_punctuation,
};
use kotoclip_core::dictionary::adapters::shogakukan_tree::{build_sense_tree, SenseDraft};
use kotoclip_core::dictionary::adapters::AdaptedOccurrence;
use kotoclip_core::dictionary::model::DictionarySense;
use kotoclip_core::html::{build_fragment, HtmlElement, SimpleToken};
use std::cell::RefCell;

#[derive(Default)]
struct Collector(RefCell<Vec<SimpleToken>>);

impl TokenSink for Collector {
    type Handle = ();

    fn process_token(&self, token: Token, _line_number: u64) -> TokenSinkResult<()> {
        match token {
            CharacterTokens(text) => {
                if !text.is_empty() {
                    self.0.borrow_mut().push(SimpleToken::Text(text.to_string()));
                }
            }
            TagToken(tag) => match tag.kind {
                StartTag => {
                    let mut attrs: Vec<(String, String)> = Vec::new();
                    for attr in tag.attrs {
                        let name = attr.name.local.to_string();
                        let value = attr.value.to_string();
                        attrs.retain(|(existing, _)| existing != &name);
                        attrs.push((name, value));
                    }
                    attrs.sort_by(|a, b| a.0.cmp(&b.0));
                    self.0.borrow_mut().push(SimpleToken::Start {
                        name: tag.name.to_string(),
                        attrs,
                        self_closing: tag.self_closing,
                    });
                }
                EndTag => self.0.borrow_mut().push(SimpleToken::End(tag.name.to_string())),
            },
            _ => {}
        }
        TokenSinkResult::Continue
    }
}

fn parse(source: &str) -> HtmlElement {
    let input = BufferQueue::default();
    input.push_back(StrTendril::from(source));
    let tokenizer = Tokenizer::new(Collector::default(), Default::default());
    let _ = tokenizer.feed(&input);
    tokenizer.end();
    build_fragment(tokenizer.sink.0.into_inner())
}


/// The language judgement these entries are read with: kana, and the
/// Japanese kanji forms the entries below use, mark a text as Japanese.
fn japanese(text: &str) -> bool {
    text.chars().any(|c| ('\u{3040}'..='\u{30ff}').contains(&c) || "間話動発類仕事".contains(c))
}

fn adapt_one(definition: &str) -> AdaptedOccurrence {
    let root = parse(definition);
    adapt(&root, "测试", "测试", None, definition, &japanese)
        .into_iter()
        .next()
        .expect("应生成 occurrence")
}

#[test]
fn keeps_parenthetical_translation_and_commas_in_one_clause() {
    let occurrence = adapt_one(
        r#"<h3>振り返る<span class="pinyin_h">ふりかえる</span></h3><section class="description"><p data-orgtag="meaning" level="2" no="1"><b>1</b><span type="語義区分2">〔後ろを〕</span><b>回头看</b>，<b>回过头去</b>（<b>看</b>），<b>向后</b>（<b>看</b>）．</p></section>"#,
    );
    let group = &occurrence.senses[0].gloss_groups[0];
    assert_eq!(group.heading.as_deref(), Some("〔後ろを〕"));
    assert_eq!(group.clauses.len(), 1);
    assert_eq!(group.clauses[0].text.html, "回头看，回过头去（看），向后（看）");
    assert!(occurrence.senses[0].definitions.is_empty());
}

#[test]
fn preserves_internal_qualifiers_semicolons_and_trailing_tags() {
    let occurrence = adapt_one(
        r#"<h3>鍵<span class="pinyin_h">かぎ</span></h3><section class="description"><p data-orgtag="meaning" level="2" no="1"><b>1</b><span type="語義区分2">〔ドアなどの〕</span>［キー］<b>钥匙</b>；［錠前］<b>锁</b><span class="white-square">成語</span>．</p></section>"#,
    );
    let clauses = &occurrence.senses[0].gloss_groups[0].clauses;
    assert_eq!(clauses.len(), 2);
    assert_eq!(clauses[0].qualifier.as_deref(), Some("キー"));
    assert_eq!(clauses[0].text.html, "钥匙");
    assert_eq!(clauses[1].separator.as_deref(), Some("；"));
    assert_eq!(clauses[1].qualifier.as_deref(), Some("錠前"));
    assert_eq!(clauses[1].text.html, "锁");
    assert_eq!(clauses[1].trailing_tags[0].label, "成語");
}

#[test]
fn merges_repeated_marker_paragraphs_as_multiple_groups() {
    let occurrence = adapt_one(
        r#"<h3>キック<span class="pinyin_h">きっく</span></h3><section class="description"><p data-orgtag="meaning" level="2" no="1"><b>1</b><span type="語義区分2">〔球技などで〕</span><b>踢球</b>．</p><p data-orgtag="meaning" level="2" no="1"><b>1</b><span type="語義区分2">〔反動・反発〕</span>反弹；反冲．</p></section>"#,
    );
    assert_eq!(occurrence.senses.len(), 1);
    assert_eq!(occurrence.senses[0].gloss_groups.len(), 2);
    assert_eq!(occurrence.senses[0].gloss_groups[1].heading.as_deref(), Some("〔反動・反発〕"));
}

#[test]
fn adapts_standalone_subhead_as_a_structured_occurrence() {
    let definition = r#"<link rel="stylesheet" type="text/css" href="Shogakukanjcv3.css"><div data-orgtag="subhead" id="JCD3_320300_SC080" type="複合語" delimiter="┃"><div data-orgtag="subheadword" type="複合語">世間話</div><p data-orgtag="meaning" class="subhw_meaning">闲话；［世間話をする］闲聊，闲谈，聊天儿<span class="white-square">口語</span>，拉〔扯〕家常<span class="white-square">口語</span>；张家长李家短．</p><p data-orgtag="example" delimiter="¶"><jae>30分ほど世間話で過ごした</jae><ja_cn>随便闲聊了三十来分钟．</ja_cn></p><p data-orgtag="example" delimiter="¶"><jae>友だちと世間話をさかなに一杯やった</jae><ja_cn>跟朋友以清谈佐酒喝了两杯．</ja_cn></p></div>参见：<a href="entry://世間">世間</a>"#;
    let root = parse(definition);
    let occurrence = adapt(&root, "世間話", "世間話", None, definition, &japanese)
        .into_iter()
        .next()
        .expect("应生成独立 occurrence");

    assert_eq!(occurrence.header.display_form, "世間話");
    assert_eq!(occurrence.entry_kind, "lexical");
    assert_eq!(occurrence.diagnostics.coverage, "structured");
    assert_eq!(occurrence.senses.len(), 1);
    let clauses = &occurrence.senses[0].gloss_groups[0].clauses;
    assert_eq!(clauses.len(), 4);
    assert_eq!(clauses[1].qualifier.as_deref(), Some("世間話をする"));
    assert_eq!(clauses[1].trailing_tags[0].label, "口語");
    assert_eq!(clauses[2].trailing_tags[0].label, "口語");
    assert_eq!(occurrence.senses[0].examples.len(), 2);
    assert!(occurrence.links.iter().any(|link| link.target == "世間"));
    assert!(!occurrence.definition_html.contains("subheadword"));
}

#[test]
fn recognizes_kanji_only_japanese_gloss_heading() {
    let occurrence = adapt_one(
        r#"<h3>雑談<span class="pinyin_h">ざつだん</span></h3><section class="description"><p data-orgtag="meaning">〔世間話〕<b>闲聊</b>．</p></section>"#,
    );
    assert_eq!(occurrence.senses[0].gloss_groups[0].heading.as_deref(), Some("世間話"));
    assert_eq!(occurrence.senses[0].gloss_groups[0].clauses[0].text.lang, "zh-CN");
}

#[test]
fn preserves_standalone_idiom_kind_and_example() {
    let definition = r#"<div data-orgtag="subhead" type="慣用句"><div data-orgtag="subheadword" type="慣用句">…たことがある</div><p data-orgtag="meaning" class="subhw_meaning">（曾经）……过．</p><p data-orgtag="example"><jae>行ったことがある</jae><ja_cn>去过．</ja_cn></p></div>参见：<a href="entry://た">た</a>"#;
    let root = parse(definition);
    let occurrence = adapt(&root, "…たことがある", "…たことがある", None, definition, &japanese)
        .into_iter()
        .next()
        .expect("应生成惯用句 occurrence");

    assert_eq!(occurrence.entry_kind, "phrase");
    assert_eq!(occurrence.senses.len(), 1);
    assert_eq!(occurrence.senses[0].examples.len(), 1);
    assert!(occurrence.links.iter().any(|link| link.target == "た"));
}

#[test]
fn preserves_standalone_original_spelling() {
    let definition = r#"<div data-orgtag="subhead" type="複合語"><div data-orgtag="subheadword" type="複合語">ペーパーワーク</div><div data-orgtag="subheadword" type="複合語原綴">paperwork</div><p data-orgtag="meaning" class="subhw_meaning">書類仕事．</p></div>"#;
    let root = parse(definition);
    let occurrence = adapt(&root, "ペーパーワーク", "ペーパーワーク", None, definition, &japanese)
        .into_iter()
        .next()
        .expect("应生成独立 occurrence");

    assert_eq!(occurrence.header.scoped_forms.len(), 2);
    assert_eq!(occurrence.header.scoped_forms[1].form, "paperwork");
    assert_eq!(occurrence.header.scoped_forms[1].kind, "original");
    assert_eq!(occurrence.header.scoped_forms[1].reading, None);
}

fn draft(level: usize, id: &str) -> SenseDraft {
    SenseDraft {
        level,
        sense: DictionarySense { sense_id: id.to_string(), ..Default::default() },
    }
}

#[test]
fn nests_each_sense_under_the_last_lower_level() {
    let senses = build_sense_tree(vec![
        draft(1, "a"),
        draft(2, "b"),
        draft(3, "c"),
        draft(2, "d"),
        draft(1, "e"),
        draft(3, "f"),
    ]);
    assert_eq!(senses.len(), 2);
    assert_eq!(senses[0].sense_id, "a");
    assert_eq!(senses[0].children.len(), 2);
    assert_eq!(senses[0].children[0].sense_id, "b");
    assert_eq!(senses[0].children[0].children[0].sense_id, "c");
    assert_eq!(senses[0].children[1].sense_id, "d");
    assert!(senses[0].children[1].children.is_empty());
    assert_eq!(senses[1].sense_id, "e");
    assert_eq!(senses[1].children[0].sense_id, "f");
}

#[test]
fn equal_levels_stay_siblings() {
    let senses = build_sense_tree(vec![draft(2, "a"), draft(2, "b"), draft(1, "c")]);
    assert_eq!(senses.iter().map(|s| s.sense_id.as_str()).collect::<Vec<_>>(), vec!["a", "b", "c"]);
    assert!(senses.iter().all(|s| s.children.is_empty()));
}

#[test]
fn splits_phrases_outside_brackets_only() {
    assert_eq!(
        split_top_level_phrases("回头看，回过头去（看，望），向后；"),
        vec!["回头看".to_string(), "回过头去（看，望）".to_string(), "向后".to_string()]
    );
    assert!(split_top_level_phrases("，；").is_empty());
}

#[test]
fn trims_outer_punctuation_after_normalising() {
    assert_eq!(trim_outer_punctuation("、 钥匙。"), "钥匙");
    assert_eq!(remove_once("闲话闲话", "闲话"), "闲话");
    assert_eq!(remove_once("闲话", "无"), "闲话");
}

#[test]
fn reads_bound_kinds_from_hyphens() {
    assert_eq!(bound_kind(Some("-てき-")), "bound_morpheme");
    assert_eq!(bound_kind(Some("-てき")), "suffix");
    assert_eq!(bound_kind(Some("ご-")), "prefix");
    assert_eq!(bound_kind(Some("かぎ")), "lexical");
    assert_eq!(bound_kind(None), "lexical");
}

#[test]
fn names_the_language_of_a_foreign_origin() {
    assert_eq!(shogakukan_foreign_origin("［英］paperwork").as_deref(), Some("英语 paperwork"));
    assert_eq!(shogakukan_foreign_origin("［仏］ bonjour ").as_deref(), Some("法语 bonjour"));
    assert_eq!(shogakukan_foreign_origin("［朝］김치").as_deref(), None);
    assert_eq!(shogakukan_foreign_origin("ふりかえる"), None);
}

#[test]
fn writes_bracketed_readings_as_ruby() {
    let (plain, html) = subhead_label("世間(せけん)話");
    assert_eq!(plain, "世間話");
    assert_eq!(html.as_deref(), Some("<ruby>世間<rt>せけん</rt></ruby>話"));
    let (plain, html) = subhead_label("世間話");
    assert_eq!(plain, "世間話");
    assert_eq!(html, None);
}

#[test]
fn record_without_section_is_partial() {
    let occurrence = adapt_one(r#"<h3>鍵<span class="pinyin_h">かぎ</span></h3>"#);
    assert_eq!(occurrence.diagnostics.coverage, "partial");
    assert_eq!(occurrence.diagnostics.warnings, vec!["词头后没有找到对应 section".to_string()]);
    assert_eq!(occurrence.header.reading.as_deref(), Some("かぎ"));
    assert_eq!(occurrence.occurrence_suffix, "record-0");
}

#[test]
fn loanword_reading_comes_from_a_kana_headword() {
    let occurrence = adapt_one(
        r#"<h3>キック<span class="pinyin_h">［英］kick</span></h3><section><p data-orgtag="meaning"><b>踢</b>．</p></section>"#,
    );
    assert_eq!(occurrence.header.origin.as_deref(), Some("英语 kick"));
    assert_eq!(occurrence.header.reading.as_deref(), Some("キック"));
}

#[test]
fn definition_without_records_falls_back() {
    let definition = "<p>只有文字</p>";
    let root = parse(definition);
    let occurrences = adapt(&root, "字", "字", Some("じ"), definition, &japanese);
    assert_eq!(occurrences.len(), 1);
    assert_eq!(occurrences[0].diagnostics.coverage, "fallback");
    assert_eq!(occurrences[0].entry_kind, "unknown");
    assert_eq!(occurrences[0].style_profile, "shogakukan");
}

#[test]
fn links_only_section_is_navigation() {
    let occurrence = adapt_one(r#"<h3>鍵</h3><section><p>⇒<a href="entry://錠">錠</a></p></section>"#);
    assert_eq!(occurrence.entry_kind, "navigation");
    assert_eq!(occurrence.diagnostics.coverage, "navigation");
}
