use html5ever::tendril::StrTendril;
use html5ever::tokenizer::{
    BufferQueue, CharacterTokens, EndTag, StartTag, TagToken, Token, TokenSink, TokenSinkResult,
    Tokenizer,
};
use kotoclip_core::dictionary::adapters::daijirin::adapt;
use kotoclip_core::dictionary::adapters::daijirin_notes::{
    clean_definition, extract_trailing_notes, internal_sense_reference,
};
use kotoclip_core::dictionary::adapters::daijirin_text::{
    build_deco_section, expand_placeholders, parse_examples, placeholder_stem, render_section_lines,
    wrap_trailing_kanji,
};
use kotoclip_core::dictionary::adapters::daijirin_header::{historical_conjugation, global_pos_label};
use kotoclip_core::dictionary::adapters::daijirin_links::{navigation_candidates, structural_links};
use kotoclip_core::dictionary::adapters::daijirin_senses::parse_pairs;
use kotoclip_core::html::{build_fragment, HtmlElement, HtmlNode, SimpleToken};
use std::cell::RefCell;

#[derive(Default)]
struct Collector(RefCell<Vec<SimpleToken>>);

impl TokenSink for Collector {
    type Handle = ();

    fn process_token(&self, token: Token, _line_number: u64) -> TokenSinkResult<()> {
        match token {
            CharacterTokens(text) => {
                if !text.is_empty() {
                    self.0.borrow_mut().push(SimpleToken::Text(text.to_string()));
                }
            }
            TagToken(tag) => match tag.kind {
                StartTag => {
                    let mut attrs: Vec<(String, String)> = Vec::new();
                    for attr in tag.attrs {
                        let name = attr.name.local.to_string();
                        let value = attr.value.to_string();
                        attrs.retain(|(existing, _)| existing != &name);
                        attrs.push((name, value));
                    }
                    attrs.sort_by(|a, b| a.0.cmp(&b.0));
                    self.0.borrow_mut().push(SimpleToken::Start {
                        name: tag.name.to_string(),
                        attrs,
                        self_closing: tag.self_closing,
                    });
                }
                EndTag => self.0.borrow_mut().push(SimpleToken::End(tag.name.to_string())),
            },
            _ => {}
        }
        TokenSinkResult::Continue
    }
}

fn parse(source: &str) -> HtmlElement {
    let input = BufferQueue::default();
    input.push_back(StrTendril::from(source));
    let tokenizer = Tokenizer::new(Collector::default(), Default::default());
    let _ = tokenizer.feed(&input);
    tokenizer.end();
    build_fragment(tokenizer.sink.0.into_inner())
}

fn first_element(root: &HtmlElement) -> &HtmlElement {
    root.children
        .iter()
        .find_map(|node| match node {
            HtmlNode::Element(element) => Some(element),
            HtmlNode::Text(_) => None,
        })
        .expect("an element")
}

#[test]
fn removes_pos_html_and_auxiliary_sections_from_major_definition() {
    let definition = r#"<p indent="0"><span class="bss">た・つ</span>【<hy>立つ</hy>】<br/><span class="deco" type="invert-rect">一</span>（動<span class="small">タ</span>五）<br/><div><div class="no">①</div><div class="lefta">直立する。<span class="rei">「山に—・つ」</span></div></div><span class="deco" type="round-rect">可能</span>たてる<br/><span class="deco" type="round-rect">表記</span>「立つ」は直立の意。</p>"#;
    let root = parse(definition);
    let occurrence = adapt(&root, "立つ", "たつ【立つ】", Some("たつ"), definition)
        .into_iter()
        .next()
        .expect("an occurrence");
    assert_eq!(occurrence.senses.len(), 1);
    assert_eq!(occurrence.senses[0].tags[0].label, "動タ五");
    assert!(occurrence.senses[0]
        .definitions
        .iter()
        .all(|definition| !definition.html.contains("small") && !definition.html.contains("可能")));
    assert!(occurrence
        .sections
        .iter()
        .any(|section| section.kind == "conjugation"));
    assert!(occurrence
        .sections
        .iter()
        .any(|section| section.kind == "orthography"));
}

#[test]
fn keeps_marker_pair_definition_without_indent_attribute() {
    let definition = r#"<p><span class="bss">こ</span>【<hy>子</hy>】<br><div><div class="no">①</div><div class="lefta">子供。⇔<a href="entry://親">親</a>・<a href="entry://祖">祖</a>。</div></div></p>"#;
    let root = parse(definition);
    let occurrence = adapt(&root, "子", "こ【子】", Some("こ"), definition)
        .into_iter()
        .next()
        .expect("an occurrence");
    assert!(
        occurrence.definition_html.contains("子供"),
        "definition_html={}",
        occurrence.definition_html
    );
    assert_eq!(occurrence.senses[0].marker.as_deref(), Some("1"));
}

#[test]
fn adapted_major_group_numbers_senses_in_order_and_fills_the_header() {
    let definition = r#"<p indent="0"><span class="bss">た・つ</span>【<hy>立つ</hy>】<br/><span class="deco" type="invert-rect">一</span>（動<span class="small">タ</span>五）<br/><div><div class="no">①</div><div class="lefta">直立する。<span class="rei">「山に—・つ」</span></div></div><span class="deco" type="round-rect">可能</span>たてる<br/><span class="deco" type="round-rect">表記</span>「立つ」は直立の意。</p>"#;
    let root = parse(definition);
    let occurrence = adapt(&root, "立つ", "たつ【立つ】", Some("たつ"), definition).remove(0);
    assert_eq!(occurrence.entry_kind, "lexical");
    assert_eq!(occurrence.style_profile, "daijirin");
    assert_eq!(occurrence.header.display_form, "立つ");
    assert_eq!(occurrence.header.canonical_form.as_deref(), Some("立つ"));
    assert_eq!(occurrence.header.reading.as_deref(), Some("たつ"));
    assert_eq!(occurrence.header.scoped_forms.len(), 1);
    assert_eq!(occurrence.header.scoped_forms[0].kind, "canonical");
    let group = &occurrence.senses[0];
    assert_eq!(group.sense_id, "s1");
    assert_eq!(group.marker.as_deref(), Some("一"));
    assert_eq!(group.children.len(), 1);
    let child = &group.children[0];
    assert_eq!(child.sense_id, "s2");
    assert_eq!(child.marker.as_deref(), Some("1"));
    assert_eq!(child.definitions[0].html, "直立する。");
    assert_eq!(child.examples.len(), 1);
    assert_eq!(child.examples[0].source.html, "山に立つ");
    let orthography = occurrence
        .sections
        .iter()
        .find(|section| section.kind == "orthography")
        .unwrap();
    assert_eq!(orthography.items[0].label.as_deref(), Some("立つ"));
    assert_eq!(orthography.items[0].content[0].html, "直立の意。");
    assert_eq!(occurrence.diagnostics.coverage, "structured");
    assert!(occurrence.diagnostics.warnings.is_empty());
}

#[test]
fn definition_without_senses_falls_back_with_a_warning() {
    let definition = "<p>ただの文</p>";
    let root = parse(definition);
    let occurrence = adapt(&root, "語", "ご【語】", None, definition).remove(0);
    assert!(occurrence.senses.is_empty());
    assert_eq!(occurrence.diagnostics.coverage, "partial");
    assert_eq!(
        occurrence.diagnostics.warnings,
        vec!["未识别大辞林义项容器，已保留安全降级内容".to_string()]
    );
    assert_eq!(occurrence.header.reading.as_deref(), Some("ご"));
}

#[test]
fn single_definition_after_the_headword_line() {
    let definition = r#"<p indent="0"><span class="bss">やま</span>【<hy>山</hy>】<br/>（名）<br/>高く盛り上がった土地。〔古くは岳〕<span class="rei">「山に登る」</span></p>"#;
    let root = parse(definition);
    let occurrence = adapt(&root, "山", "やま【山】", None, definition).remove(0);
    assert_eq!(occurrence.senses.len(), 1);
    let sense = &occurrence.senses[0];
    assert_eq!(sense.sense_id, "s1");
    assert!(sense.marker.is_none());
    assert_eq!(sense.tags[0].kind, "pos");
    assert_eq!(sense.tags[0].label, "名");
    assert_eq!(sense.definitions[0].html, "高く盛り上がった土地。");
    assert_eq!(sense.notes[0].html, "古くは岳");
    assert_eq!(sense.examples[0].source.html, "山に登る");
}

#[test]
fn ruby_readings_attach_to_trailing_ideographs() {
    let mut output = "手を山".to_string();
    wrap_trailing_kanji(&mut output, "やま");
    assert_eq!(output, "手を<ruby>山<rt>やま</rt></ruby>");
    let mut output = "かな".to_string();
    wrap_trailing_kanji(&mut output, "<x>");
    assert_eq!(output, "かな（&lt;x&gt;）");
    let mut output = "山".to_string();
    wrap_trailing_kanji(&mut output, "");
    assert_eq!(output, "山");
}

#[test]
fn placeholders_stand_for_the_form_and_its_stem() {
    assert_eq!(expand_placeholders("山に—・つ", "立つ", Some("立")), "山に立つ");
    assert_eq!(expand_placeholders("—が", "立つ", None), "立つが");
    let root = parse(r#"<span class="bss">た・つ</span>"#);
    assert_eq!(placeholder_stem(&root, "立つ").as_deref(), Some("立"));
    let root = parse(r#"<span class="bss">たつ</span>"#);
    assert_eq!(placeholder_stem(&root, "立つ"), None);
}

#[test]
fn trailing_and_leading_notes_are_taken_off() {
    let (definition, notes) = extract_trailing_notes("〔文〕 意味。〔注〕 〔補〕".to_string());
    assert_eq!(definition, "意味。");
    let htmls = notes.iter().map(|note| note.html.as_str()).collect::<Vec<_>>();
    assert_eq!(htmls, vec!["文", "注", "補"]);
    let (definition, notes) = extract_trailing_notes("ただの意味".to_string());
    assert_eq!(definition, "ただの意味");
    assert!(notes.is_empty());
}

#[test]
fn form_scopes_become_tags() {
    let (definition, tags) = clean_definition("《立・建／起》立つこと。⇒".to_string(), true);
    assert_eq!(definition, "立つこと。");
    let labels = tags.iter().map(|tag| (tag.kind.as_str(), tag.label.as_str())).collect::<Vec<_>>();
    assert_eq!(labels, vec![("form", "立"), ("form", "建"), ("form", "起")]);
    let (definition, tags) = clean_definition("《立》《立》⇒先".to_string(), false);
    assert_eq!(definition, "⇒先");
    assert_eq!(tags.len(), 1);
}

#[test]
fn references_to_other_senses_become_links() {
    let link = internal_sense_reference("二②に同じ。").expect("a reference");
    assert_eq!(link.label, "二②");
    assert_eq!(link.target, "sense-marker:二②");
    assert_eq!(link.relation, "internal_reference");
    assert!(internal_sense_reference("山に同じ").is_none());
}

#[test]
fn section_lines_and_sections() {
    let root = parse("慣用<br/>━が立つ・顔を━<br/>");
    let lines = render_section_lines(&root.children);
    assert_eq!(lines, vec!["慣用".to_string(), "━が立つ・顔を━".to_string()]);
    let idioms = build_deco_section("慣用", &["━が立つ・顔を━".to_string()], "腹", None).unwrap();
    assert_eq!(idioms.kind, "idioms");
    assert_eq!(idioms.label.as_deref(), Some("惯用表达"));
    let phrases = idioms
        .items
        .iter()
        .map(|item| item.content[0].html.as_str())
        .collect::<Vec<_>>();
    assert_eq!(phrases, vec!["腹が立つ", "顔を腹"]);
    let derived = build_deco_section("派生", &["━・さ（名）".to_string()], "高い", Some("高")).unwrap();
    assert_eq!(derived.kind, "derivations");
    assert_eq!(derived.items[0].label.as_deref(), Some("高さ"));
    assert_eq!(derived.items[0].tags[0].label, "名");
    let notes = build_deco_section("補足", &["一行".to_string()], "山", None).unwrap();
    assert_eq!(notes.kind, "notes");
    assert_eq!(notes.label.as_deref(), Some("補足"));
    assert!(build_deco_section("可能", &[], "山", None).is_none());
}

#[test]
fn examples_are_read_from_quotes_or_whole_text() {
    let root = parse(r#"<span class="rei">「山に—」「川を見る」</span>"#);
    let group = first_element(&root);
    let examples = parse_examples(group, "登る", None);
    let sources = examples.iter().map(|example| example.source.html.as_str()).collect::<Vec<_>>();
    assert_eq!(sources, vec!["山に登る", "川を見る"]);
    let root = parse(r#"<span class="rei">引用なし</span>"#);
    let examples = parse_examples(first_element(&root), "登る", None);
    assert_eq!(examples.len(), 1);
    assert_eq!(examples[0].source.html, "引用なし");
}

#[test]
fn nested_pairs_number_depth_first() {
    let root = parse(r#"<div><div class="no">①</div><div class="lefta">上。<div><div class="no">㋐</div><div class="lefta">下。</div></div></div><div class="no">②</div><div class="lefta">次。</div></div>"#);
    let mut counter = 4usize;
    let senses = parse_pairs(first_element(&root), "山", None, &mut counter);
    assert_eq!(counter, 7);
    assert_eq!(senses.len(), 2);
    assert_eq!(senses[0].sense_id, "s5");
    assert_eq!(senses[0].children[0].sense_id, "s6");
    assert_eq!(senses[0].children[0].marker.as_deref(), Some("㋐"));
    assert_eq!(senses[1].sense_id, "s7");
    assert_eq!(senses[1].marker.as_deref(), Some("2"));
    assert_eq!(senses[1].definitions[0].html, "次。");
}

#[test]
fn header_reads_global_pos_and_classical_conjugation() {
    let root = parse(r#"<p indent="0"><span class="bss">たか・い</span>【高い】（形）<br/><span class="deco">文</span>ク たか・し<br/></p>"#);
    assert_eq!(global_pos_label(&root).as_deref(), Some("形"));
    let (conjugation, reading) = historical_conjugation(&root).expect("a classical form");
    assert_eq!(conjugation, "ク");
    assert_eq!(reading, "たかし");
}

#[test]
fn navigation_paragraphs_offer_candidates() {
    let root = parse(r#"<p>☞<a href="entry://山">山</a><a href="entry://川">川</a><br/>☞<a href="entry://海">海</a></p>"#);
    let paragraph = first_element(&root);
    let links = navigation_candidates(paragraph);
    let targets = links.iter().map(|link| link.target.as_str()).collect::<Vec<_>>();
    assert_eq!(targets, vec!["山", "海"]);
    let all = structural_links(&root);
    assert_eq!(all.len(), 2);
    assert!(all.iter().all(|link| link.relation == "candidate"));
    let definition = r#"<p>☞<a href="entry://山">山</a></p>"#;
    let root = parse(definition);
    let occurrence = adapt(&root, "やま", "やま", None, definition).remove(0);
    assert_eq!(occurrence.entry_kind, "navigation");
    assert_eq!(occurrence.diagnostics.coverage, "navigation");
}
