use kotoclip_core::dictionary::adapters::common::{
    direct_child_elements, escape_html, example, extract_links, fallback, html_text,
    normalize_reading, normalize_visible_text, qualified_text, sanitize_fallback, tag, text,
};
use kotoclip_core::dictionary::adapters::daijirin::{
    choose_display_form, detect_kind, foreign_origin, has_direct_marker_pair, has_major_deco,
    is_auxiliary_section_deco, is_major_deco, is_marker, is_rect_deco, local_grammar_labels,
    marker_text, normalize_sense_marker, reading_from_headword, scoped_forms,
};
use kotoclip_core::html::{build_fragment, HtmlElement, HtmlNode, SimpleToken};

fn el(name: &str, attrs: &[(&str, &str)], children: Vec<HtmlNode>) -> HtmlElement {
    HtmlElement {
        name: name.to_string(),
        attrs: attrs
            .iter()
            .map(|(k, v)| (k.to_string(), v.to_string()))
            .collect(),
        children,
    }
}

fn node(element: HtmlElement) -> HtmlNode {
    HtmlNode::Element(element)
}

fn txt(value: &str) -> HtmlNode {
    HtmlNode::Text(value.to_string())
}

#[test]
fn normalizes_enclosed_numeric_markers_without_changing_other_levels() {
    assert_eq!(normalize_sense_marker("①"), "1");
    assert_eq!(normalize_sense_marker("⑳"), "20");
    assert_eq!(normalize_sense_marker("㉑"), "21");
    assert_eq!(normalize_sense_marker("㊿"), "50");
    assert_eq!(normalize_sense_marker("一"), "一");
    assert_eq!(normalize_sense_marker("㋐"), "㋐");
}

#[test]
fn visible_text_collapses_spacing_and_doubled_marks() {
    assert_eq!(
        normalize_visible_text("\u{3000} 立つ\u{a0}\u{a0}こと．．。 。┏【・】┓ "),
        "立つ こと。"
    );
    assert_eq!(normalize_visible_text("a、、、b⇒⇒c；；d，，e"), "a、b⇒c；d，e");
    assert_eq!(normalize_visible_text("   "), "");
    assert_eq!(normalize_reading(" た・つ･ "), "たつ");
}

#[test]
fn html_is_escaped_character_by_character() {
    assert_eq!(escape_html("<a href=\"x\">&'</a>"), "&lt;a href=&quot;x&quot;&gt;&amp;&#39;&lt;/a&gt;");
    let t = text("ja", " <b> ");
    assert_eq!(t.lang, "ja");
    assert_eq!(t.qualifier, None);
    assert_eq!(t.html, "&lt;b&gt;");
    let q = qualified_text("zh-CN", "  ", "x");
    assert_eq!(q.qualifier, None);
    let q = qualified_text("zh-CN", "〔口〕", "x");
    assert_eq!(q.qualifier.as_deref(), Some("〔口〕"));
    assert_eq!(tag("pos", " 名 ").label, "名");
}

#[test]
fn examples_need_visible_source_text() {
    assert!(example("  ", Some("译文")).is_none());
    let e = example("猫が　いる", Some("   ")).unwrap();
    assert_eq!(e.source.html, "猫が いる");
    assert!(e.translation.is_none());
    let e = example("猫", Some("猫咪")).unwrap();
    assert_eq!(e.translation.unwrap().lang, "zh-CN");
}

#[test]
fn fallback_sanitizes_and_flags_the_occurrence() {
    let occurrence = fallback("generic", "立つ", Some("たつ"), "<p onclick=\"x\">本文<script>bad()</script></p>", "unknown");
    assert_eq!(occurrence.definition_html, "<p>本文</p>");
    assert_eq!(occurrence.content_blocks.len(), 1);
    assert_eq!(occurrence.content_blocks[0].kind, "rich_text");
    assert_eq!(occurrence.diagnostics.coverage, "fallback");
    assert_eq!(occurrence.header.canonical_form.as_deref(), Some("立つ"));
    assert_eq!(occurrence.header.reading.as_deref(), Some("たつ"));
    let blank = fallback("generic", "x", None, "<script>only()</script>", "unknown");
    assert!(blank.content_blocks.is_empty());
    assert_eq!(sanitize_fallback("<span class=\"a\" id=\"b\">x</span>"), "<span class=\"a\">x</span>");
    assert_eq!(html_text("ja", "  <b>x</b>  ").html, "<b>x</b>");
}

#[test]
fn oversized_definitions_are_cut_at_a_character_boundary() {
    let long = "あ".repeat(200_000);
    let cut = sanitize_fallback(&long);
    assert!(cut.ends_with("… [内容已截断]"));
    assert_eq!(cut.chars().filter(|c| *c == 'あ').count(), 524_288 / 3);
}

#[test]
fn links_are_read_once_per_entry_target() {
    let root = el(
        "root",
        &[],
        vec![
            node(el("a", &[("href", "entry:// 立つ ")], vec![txt("たつ")])),
            node(el("p", &[], vec![node(el("a", &[("href", "entry://立つ")], vec![txt("again")]))])),
            node(el("a", &[("href", "entry://経つ")], vec![])),
            node(el("a", &[("href", "https://x")], vec![txt("web")])),
        ],
    );
    let links = extract_links(&root, "related");
    assert_eq!(links.len(), 2);
    assert_eq!(links[0].target, "立つ");
    assert_eq!(links[0].label, "たつ");
    assert_eq!(links[1].target, "経つ");
    assert_eq!(links[1].label, "経つ");
    assert_eq!(links[1].relation, "related");
    assert_eq!(direct_child_elements(&root).len(), 4);
}

#[test]
fn markers_and_decorations_are_recognized() {
    assert!(is_marker("①"));
    assert!(is_marker("㋐"));
    assert!(is_marker("三"));
    assert!(!is_marker("12"));
    assert!(!is_marker("a"));
    let marker = el("span", &[("class", "no")], vec![txt(" ②. ")]);
    assert_eq!(marker_text(&marker).as_deref(), Some("2"));
    let deco = el("span", &[("class", "deco")], vec![txt("一")]);
    assert_eq!(marker_text(&deco), None);
    assert!(is_major_deco(&deco));
    assert!(!is_rect_deco(&deco));
    let rect = el("span", &[("class", "deco"), ("type", "rect")], vec![txt("二")]);
    assert!(is_rect_deco(&rect));
    let round = el("span", &[("class", "deco"), ("type", "round-rect")], vec![txt("二")]);
    assert!(!is_major_deco(&round));
    let parent = el("p", &[], vec![txt("x"), node(round), node(rect)]);
    assert!(has_major_deco(&parent));
    let aux = el("span", &[("class", "deco")], vec![txt("表記")]);
    assert!(is_auxiliary_section_deco(&aux));
    let pair = el(
        "div",
        &[],
        vec![
            node(el("span", &[], vec![txt("①")])),
            node(el("span", &[("class", "lefta")], vec![txt("本文")])),
        ],
    );
    assert!(has_direct_marker_pair(&pair));
    let no_pair = el("div", &[], vec![node(el("span", &[], vec![txt("本文")]))]);
    assert!(!has_direct_marker_pair(&no_pair));
}

#[test]
fn header_fields_are_read_from_the_record() {
    assert_eq!(reading_from_headword(" たつ 【立つ】").as_deref(), Some("たつ"));
    assert_eq!(reading_from_headword("【立つ】"), None);
    assert_eq!(reading_from_headword("たつ").as_deref(), Some("たつ"));
    let forms = vec!["立つ".to_string(), "起つ".to_string()];
    assert_eq!(choose_display_form("起つ", &forms), "起つ");
    assert_eq!(choose_display_form("建つ", &forms), "立つ");
    assert_eq!(choose_display_form("建つ", &[]), "建つ");
    let root = el(
        "root",
        &[],
        vec![
            node(el("hy", &[], vec![txt("▽立つ")])),
            node(el("hy", &[], vec![txt("立つ")])),
            node(el("hy", &[], vec![txt("〈起つ〉")])),
            node(el("span", &[("class", "nk")], vec![txt("pan")])),
            node(el("span", &[("class", "small")], vec![txt("ポルトガル")])),
            node(el("span", &[("class", "small")], vec![txt("スル")])),
        ],
    );
    assert_eq!(scoped_forms(&root), vec!["立つ".to_string(), "起つ".to_string()]);
    assert_eq!(foreign_origin(&root, "〖pão〗").as_deref(), Some("ポルトガル pan"));
    assert_eq!(foreign_origin(&root, "なし"), None);
    assert_eq!(local_grammar_labels(&root), vec!["スル".to_string()]);
    assert_eq!(detect_kind(&root, "  @@@LINK=立つ"), "redirect");
    assert_eq!(detect_kind(&root, "本文"), "lexical");
    let kanji = el("root", &[], vec![node(el("span", &[("type", "漢字")], vec![]))]);
    assert_eq!(detect_kind(&kanji, ""), "kanji");
    let surname = el("root", &[], vec![txt("姓氏")]);
    assert_eq!(detect_kind(&surname, ""), "surname");
}

#[test]
fn fragment_builder_nests_and_closes_elements() {
    let tokens = vec![
        SimpleToken::Start { name: "p".to_string(), attrs: vec![("class".to_string(), "a b".to_string())], self_closing: false },
        SimpleToken::Text("x".to_string()),
        SimpleToken::Text("y".to_string()),
        SimpleToken::Start { name: "br".to_string(), attrs: vec![], self_closing: false },
        SimpleToken::Start { name: "span".to_string(), attrs: vec![], self_closing: false },
        SimpleToken::Text("z".to_string()),
        SimpleToken::End("p".to_string()),
        SimpleToken::End("div".to_string()),
        SimpleToken::Text("w".to_string()),
    ];
    let root = build_fragment(tokens);
    assert_eq!(root.name, "root");
    assert_eq!(root.children.len(), 2);
    let HtmlNode::Element(p) = &root.children[0] else { panic!("p expected") };
    assert!(p.has_class("b"));
    assert_eq!(p.children.len(), 3);
    assert_eq!(p.children[0], HtmlNode::Text("xy".to_string()));
    assert_eq!(p.text(), "xy\nz");
    assert_eq!(root.text(), "xy\nz\nw");
    assert!(root.first_by_class("a").is_some());
    let mut spans = Vec::new();
    root.all_by_name("span", &mut spans);
    assert_eq!(spans.len(), 1);
    let mut all = Vec::new();
    root.all_elements(&mut all);
    assert_eq!(all.len(), 3);
}

use kotoclip_core::dictionary::adapters::common::finish;
use kotoclip_core::dictionary::model::{DictionarySense, DictionaryText};

fn dtext(lang: &str, qualifier: Option<&str>, html: &str) -> DictionaryText {
    DictionaryText { lang: lang.to_string(), qualifier: qualifier.map(str::to_string), html: html.to_string() }
}

#[test]
fn finish_renders_the_sense_tree_as_the_definition() {
    let mut occurrence = fallback("x", "立つ", None, "", "");
    occurrence.entry_kind = String::new();
    occurrence.diagnostics.coverage = String::new();
    occurrence.senses = vec![DictionarySense {
        sense_id: "1".to_string(),
        marker: Some("1".to_string()),
        glosses: vec![dtext("zh-CN", Some("〔口〕"), "站"), dtext("zh-CN", Some("〔口〕"), "立")],
        children: vec![DictionarySense {
            definitions: vec![dtext("ja", None, "子")],
            ..DictionarySense::default()
        }],
        ..DictionarySense::default()
    }];
    let finished = finish(occurrence, "daijirin", "<p>unused</p>");
    let expected = [
        "<ol class=\"sense-tree sense-tree--depth-0\">",
        "<li class=\"sense-node\"><div class=\"sense-main\"><span class=\"sense-marker\">1</span><div class=\"sense-content\">",
        "<div class=\"sense-gloss-group\"><span class=\"sense-gloss-clauses\">",
        "<span class=\"sense-gloss-clause\" lang=\"zh-CN\"><span class=\"sense-gloss__qualifier\" lang=\"ja\">〔口〕</span>站</span>",
        "<span class=\"sense-gloss-separator\">，</span><span class=\"sense-gloss-clause\" lang=\"zh-CN\">立</span>",
        "</span></div>",
        "</div></div>",
        "<ol class=\"sense-tree sense-tree--depth-1\">",
        "<li class=\"sense-node\"><div class=\"sense-main sense-main--unmarked\"><div class=\"sense-content\">",
        "<div class=\"sense-definition\" lang=\"ja\">子</div>",
        "</div></div></li></ol>",
        "</li></ol>",
    ]
    .concat();
    assert_eq!(finished.definition_html, expected);
    assert_eq!(finished.content_blocks[0].kind, "structured_preview");
    assert_eq!(finished.diagnostics.coverage, "structured");
    assert_eq!(finished.entry_kind, "unknown");
    assert_eq!(finished.style_profile, "daijirin");
}

#[test]
fn finish_falls_back_to_the_sanitized_source() {
    let mut occurrence = fallback("x", "", None, "", "lexical");
    occurrence.diagnostics.coverage = String::new();
    let finished = finish(occurrence, "generic", "<p>本文</p>");
    assert_eq!(finished.definition_html, "<p>本文</p>");
    assert_eq!(finished.content_blocks[0].kind, "rich_text");
    assert_eq!(finished.diagnostics.coverage, "partial");
    assert_eq!(finished.header.display_form, "未识别词头");
}

#[test]
fn attribute_map_orders_names_and_keeps_last_value() {
    let map = kotoclip_core::html::attribute_map(vec![
        ("class".to_string(), "a".to_string()),
        ("id".to_string(), "x".to_string()),
        ("data-z".to_string(), "1".to_string()),
        ("class".to_string(), "b".to_string()),
    ]);
    assert_eq!(
        map,
        vec![
            ("class".to_string(), "b".to_string()),
            ("data-z".to_string(), "1".to_string()),
            ("id".to_string(), "x".to_string()),
        ]
    );
}
