use html5ever::tendril::StrTendril;
use html5ever::tokenizer::{
    BufferQueue, CharacterTokens, EndTag, StartTag, TagToken, Token, TokenSink, TokenSinkResult,
    Tokenizer,
};
use kotoclip_core::dictionary::adapters::crown::{adapt, foreign_origin};
use kotoclip_core::dictionary::presentation::present;
use kotoclip_core::html::{build_fragment, HtmlElement, SimpleToken};
use std::cell::RefCell;

#[derive(Default)]
struct Collector(RefCell<Vec<SimpleToken>>);

impl TokenSink for Collector {
    type Handle = ();

    fn process_token(&self, token: Token, _line_number: u64) -> TokenSinkResult<()> {
        match token {
            CharacterTokens(text) => {
                if !text.is_empty() {
                    self.0.borrow_mut().push(SimpleToken::Text(text.to_string()));
                }
            }
            TagToken(tag) => match tag.kind {
                StartTag => {
                    let mut attrs: Vec<(String, String)> = Vec::new();
                    for attr in tag.attrs {
                        let name = attr.name.local.to_string();
                        let value = attr.value.to_string();
                        attrs.retain(|(existing, _)| existing != &name);
                        attrs.push((name, value));
                    }
                    attrs.sort_by(|a, b| a.0.cmp(&b.0));
                    self.0.borrow_mut().push(SimpleToken::Start {
                        name: tag.name.to_string(),
                        attrs,
                        self_closing: tag.self_closing,
                    });
                }
                EndTag => self.0.borrow_mut().push(SimpleToken::End(tag.name.to_string())),
            },
            _ => {}
        }
        TokenSinkResult::Continue
    }
}

fn parse(source: &str) -> HtmlElement {
    let input = BufferQueue::default();
    input.push_back(StrTendril::from(source));
    let tokenizer = Tokenizer::new(Collector::default(), Default::default());
    let _ = tokenizer.feed(&input);
    tokenizer.end();
    build_fragment(tokenizer.sink.0.into_inner())
}


fn japanese(text: &str) -> bool {
    text.chars().any(|c| ('\u{3040}'..='\u{30ff}').contains(&c))
}

const TABERU: &str = r#"<div><span class="hw_midashi">た・べる</span><span class="hw_hyoki">食べる</span><span class="mj_katsuyogobi">る</span><div class="mean_gogi"><span class="kg_gogi">1</span><span class="mean_kubun">〔食物を〕</span><div class="yakugo_sub_box"><span class="mean_shokubun">（食事）</span><span class="mean_yakugo">吃<span class="pinyin_box">chī</span></span></div><div class="mean_yoreiyaku"><span class="mean_yorei">ご飯を<span class="ruby_box"><span class="mj_rb">食</span><span class="mj_rt">た</span></span>べる</span><span class="mean_reiyaku">吃饭<span class="pinyin_box">chīfàn</span></span></div></div><div class="group_kanyo"><div class="item_sub_kanyo"><span class="midashi_sub_kanyo">道草を食う</span><span class="mean_yakugo">在路上闲逛</span></div></div><div class="item_sub_column">補足の説明<span class="pinyin_box">x</span></div><a href="entry://食事">食事</a></div>"#;

#[test]
fn reads_forms_senses_examples_and_sections() {
    let root = parse(TABERU);
    let occurrences = adapt(&root, "食べる", "たべる【食べる】", None, TABERU);
    assert_eq!(occurrences.len(), 1);
    let o = &occurrences[0];
    assert_eq!(o.style_profile, "crown");
    assert_eq!(o.entry_kind, "lexical");
    assert_eq!(o.header.display_form, "食べる");
    assert_eq!(o.header.reading.as_deref(), Some("たべる"));
    assert_eq!(o.header.scoped_forms.len(), 2);
    assert_eq!(o.header.scoped_forms[1].form, "食べ");
    assert_eq!(o.header.scoped_forms[1].kind, "stem");
    assert_eq!(o.senses.len(), 1);
    let sense = &o.senses[0];
    assert_eq!(sense.sense_id, "s1");
    assert_eq!(sense.marker.as_deref(), Some("1"));
    assert_eq!(sense.heading.as_deref(), Some("〔食物を〕"));
    assert_eq!(sense.glosses.len(), 1);
    assert_eq!(sense.glosses[0].qualifier.as_deref(), Some("食事"));
    assert_eq!(sense.glosses[0].html, "吃");
    assert_eq!(sense.examples.len(), 1);
    assert_eq!(sense.examples[0].source.html, "ご飯を<ruby>食<rt>た</rt></ruby>べる");
    assert_eq!(sense.examples[0].translation.as_ref().map(|t| t.html.as_str()), Some("吃饭"));
    assert_eq!(o.sections.len(), 2);
    assert_eq!(o.sections[0].kind, "idioms");
    assert_eq!(o.sections[0].items[0].label.as_deref(), Some("道草を食う"));
    assert_eq!(o.sections[0].items[0].content[0].html, "在路上闲逛");
    assert_eq!(o.sections[1].kind, "notes");
    assert_eq!(o.sections[1].items[0].content[0].html, "補足の説明");
    assert_eq!(o.links.len(), 1);
    assert_eq!(o.links[0].target, "食事");
    assert_eq!(o.diagnostics.coverage, "structured");
    assert_eq!(o.diagnostics.omitted, vec!["拼音与英文对应默认从主释义及例句省略".to_string()]);
}

#[test]
fn reading_gains_the_conjugated_ending_it_lacks() {
    let definition = r#"<span class="hw_midashi">たべ</span><span class="hw_hyoki">食べる</span><span class="mj_katsuyogobi">る</span><div class="mean_gogi"><span class="mean_yakugo">吃</span></div>"#;
    let root = parse(definition);
    let o = &adapt(&root, "食べる", "食べる", None, definition)[0];
    assert_eq!(o.header.reading.as_deref(), Some("たべる"));
    assert_eq!(o.header.scoped_forms[1].reading.as_deref(), Some("たべ"));
    assert_eq!(o.senses[0].glosses[0].html, "吃");
}

#[test]
fn english_prefix_without_glosses_marks_a_prefix() {
    let definition = r#"<span class="hw_hyoki">非</span><div class="mean_gogi"></div><span class="mean_eiyaku">non-</span>"#;
    let root = parse(definition);
    let o = &adapt(&root, "非", "非", Some("ひ"), definition)[0];
    assert_eq!(o.entry_kind, "prefix");
    assert_eq!(o.header.scoped_forms[0].kind, "prefix");
    assert_eq!(o.header.usage_tags[0].kind, "grammar");
    assert_eq!(o.header.usage_tags[0].label, "接头成分");
    assert_eq!(o.senses[0].heading.as_deref(), Some("接头成分"));
    assert_eq!(o.header.reading.as_deref(), Some("ひ"));
}

#[test]
fn animal_cries_and_surnames_are_tagged() {
    let definition = r#"<div class="mean_gogi"><span class="mean_kubun">〔牛の声〕</span><span class="mean_yakugo">哞</span></div>"#;
    let root = parse(definition);
    let o = &adapt(&root, "もう", "もう", None, definition)[0];
    assert_eq!(o.entry_kind, "onomatopoeia");
    assert_eq!(o.header.usage_tags[0].label, "拟声");
    let definition = r#"<div class="mean_gogi"><span class="mean_yakugo">姓氏</span></div>"#;
    let root = parse(definition);
    let o = &adapt(&root, "佐藤", "佐藤", None, definition)[0];
    assert_eq!(o.entry_kind, "surname");
    assert_eq!(o.header.usage_tags[0].kind, "proper");
}

#[test]
fn unreadable_definition_is_partial() {
    let definition = "<p>なにもない</p>";
    let root = parse(definition);
    let o = &adapt(&root, "無", "無", None, definition)[0];
    assert_eq!(o.diagnostics.coverage, "partial");
    assert_eq!(o.diagnostics.warnings, vec!["未识别 Crown 主义项结构，已保留安全降级内容".to_string()]);
    assert_eq!(o.header.display_form, "無");
}

#[test]
fn sense_without_glosses_keeps_its_text_as_a_definition() {
    let definition = r#"<div class="mean_gogi"><span class="kg_gogi">2</span>用言の連用形に付く<span class="pinyin_box">x</span></div>"#;
    let root = parse(definition);
    let o = &adapt(&root, "つく", "つく", None, definition)[0];
    assert_eq!(o.senses[0].definitions[0].lang, "ja");
    assert_eq!(o.senses[0].definitions[0].html, "用言の連用形に付く");
}

#[test]
fn origin_is_the_bracketed_foreign_word() {
    assert_eq!(foreign_origin("パン〖 pão 〗").as_deref(), Some("pão"));
    assert_eq!(foreign_origin("パン〖〗"), None);
    assert_eq!(foreign_origin("パン〖pão"), None);
}

#[test]
fn each_dictionary_family_has_its_adapter() {
    let root = parse(TABERU);
    let crown = present("CROWN 日中辞典", &root, "食べる", "食べる", None, TABERU, &japanese);
    assert_eq!(crown[0].style_profile, "crown");
    let other = present("其他词典", &root, "食べる", "食べる", Some("たべる"), TABERU, &japanese);
    assert_eq!(other.len(), 1);
    assert_eq!(other[0].style_profile, "generic");
    assert_eq!(other[0].diagnostics.coverage, "fallback");
    assert_eq!(other[0].header.reading.as_deref(), Some("たべる"));
    let definition = r#"<h3>鍵<span class="pinyin_h">かぎ</span></h3><section><p data-orgtag="meaning"><b>钥匙</b>．</p></section>"#;
    let root = parse(definition);
    let shogakukan = present("小学館 日中辞典", &root, "鍵", "鍵", None, definition, &japanese);
    assert_eq!(shogakukan[0].style_profile, "shogakukan");
    assert_eq!(shogakukan[0].senses[0].glosses[0].html, "钥匙");
    let definition = r#"<p><span class="bss">かぎ</span>【<hy>鍵</hy>】錠をあける道具。</p>"#;
    let root = parse(definition);
    let daijirin = present("三省堂 大辞林", &root, "鍵", "かぎ【鍵】", None, definition, &japanese);
    assert_eq!(daijirin[0].style_profile, "daijirin");
}
