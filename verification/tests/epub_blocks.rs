use kotoclip_core::import::epub::{DocumentMetrics, DocumentRole, NavigationEntry, SpineDocument};
use kotoclip_core::import::epub_blocks::{
    append_inline_parts, classify_document, merge_navigation, normalize_blocks, push_heading,
    serialize_markdown, CanonicalBlock, InlinePart, Metadata,
};

fn describe(blocks: &[CanonicalBlock]) -> Vec<String> {
    blocks
        .iter()
        .map(|b| match b {
            CanonicalBlock::Heading(t) => format!("H:{t}"),
            CanonicalBlock::Paragraph(t) => format!("P:{t}"),
            CanonicalBlock::Image { href, alt } => format!("I:{href}|{alt}"),
        })
        .collect()
}

#[test]
fn inline_parts_become_blocks() {
    let mut blocks = Vec::new();
    append_inline_parts(
        &mut blocks,
        vec![
            InlinePart::Text("本文".to_string()),
            InlinePart::Text("です".to_string()),
            InlinePart::Break,
            InlinePart::Heading("第一章".to_string()),
            InlinePart::Text("第一章".to_string()),
            InlinePart::Break,
            InlinePart::Image { href: "a b.png".to_string(), alt: "図]1".to_string() },
            InlinePart::Text("終わり".to_string()),
        ],
    );
    assert_eq!(describe(&blocks), vec!["P:本文です", "H:第一章", "I:a b.png|図]1", "P:終わり"]);
    push_heading(&mut blocks, "   ".to_string());
    assert_eq!(blocks.len(), 4);
}

#[test]
fn repeated_blocks_are_dropped() {
    let mut blocks = vec![
        CanonicalBlock::Heading("序".to_string()),
        CanonicalBlock::Heading("序".to_string()),
        CanonicalBlock::Image { href: "x.png".to_string(), alt: String::new() },
        CanonicalBlock::Image { href: "X.PNG".to_string(), alt: "b".to_string() },
        CanonicalBlock::Paragraph("p".to_string()),
        CanonicalBlock::Paragraph("p".to_string()),
    ];
    normalize_blocks(&mut blocks);
    assert_eq!(describe(&blocks), vec!["H:序", "I:x.png|", "P:p", "P:p"]);
}

#[test]
fn markdown_has_front_matter_toc_and_blocks() {
    let metadata = Metadata {
        title: "本\"題".to_string(),
        author: "著者".to_string(),
        date: "2024".to_string(),
        language: "ja".to_string(),
    };
    let blocks = vec![
        CanonicalBlock::Heading("第一章".to_string()),
        CanonicalBlock::Paragraph("本文".to_string()),
        CanonicalBlock::Image { href: "a b.png".to_string(), alt: "図]1".to_string() },
        CanonicalBlock::Image { href: "c.png".to_string(), alt: "c".to_string() },
    ];
    let md = serialize_markdown(&metadata, &["第一章".to_string()], &blocks);
    assert_eq!(
        md,
        "---\ntitle: \"本\\\"題\"\nauthor: \"著者\"\ndate: \"2024\"\nlanguage: \"ja\"\n---\n\n## 目次\n- [[#第一章]]\n\n## 第一章\n\n本文\n\n![図\\]1](<a b.png>)\n\n![c](c.png)\n"
    );
    let bare = serialize_markdown(&metadata, &[], &[]);
    assert!(bare.ends_with("---\n"));
}

fn nav(title: &str, path: &str) -> NavigationEntry {
    NavigationEntry { title: title.to_string(), path: path.to_string(), fragment: None }
}

fn doc(path: &str) -> SpineDocument {
    SpineDocument {
        path: path.to_string(),
        xhtml: String::new(),
        role: DocumentRole::Content,
        metrics: DocumentMetrics { text_chars: 10, links: 0, images: 0, headings: 1 },
    }
}

#[test]
fn navigation_prefers_the_longer_table_and_spine_paths() {
    let merged = merge_navigation(
        vec![nav("一", "Text/A.xhtml")],
        vec![nav("一", "text/a.xhtml"), nav("二", "text/b.xhtml")],
        &[doc("Text/a.xhtml"), doc("Text/B.xhtml")],
    );
    let shown: Vec<(String, String)> = merged.iter().map(|e| (e.title.clone(), e.path.clone())).collect();
    assert_eq!(
        shown,
        vec![("一".to_string(), "Text/a.xhtml".to_string()), ("二".to_string(), "Text/B.xhtml".to_string())]
    );
}

fn metrics(text_chars: usize, links: usize, images: usize) -> DocumentMetrics {
    DocumentMetrics { text_chars, links, images, headings: 0 }
}

#[test]
fn documents_are_classified_by_signals_and_counts() {
    let none: Vec<String> = Vec::new();
    assert_eq!(classify_document(&["cover-image".to_string()], &none, None, None, "c", "c.xhtml", &metrics(0, 0, 1)), DocumentRole::Cover);
    assert_eq!(classify_document(&none, &none, Some("toc"), None, "n", "nav.xhtml", &metrics(100, 2, 0)), DocumentRole::Toc);
    assert_eq!(classify_document(&none, &none, None, None, "x", "x.xhtml", &metrics(100, 3, 0)), DocumentRole::Toc);
    assert_eq!(classify_document(&none, &none, None, Some("Copyright"), "x", "x.xhtml", &metrics(100, 0, 0)), DocumentRole::Notice);
    assert_eq!(classify_document(&none, &["titlepage".to_string()], None, None, "x", "x.xhtml", &metrics(100, 0, 0)), DocumentRole::TitlePage);
    assert_eq!(classify_document(&none, &none, None, None, "okuzuke", "奥付.xhtml", &metrics(5000, 0, 0)), DocumentRole::Backmatter);
    assert_eq!(classify_document(&none, &none, None, None, "p1", "p1.xhtml", &metrics(0, 0, 2)), DocumentRole::Illustration);
    assert_eq!(classify_document(&none, &none, None, None, "ch1", "ch1.xhtml", &metrics(5000, 1, 0)), DocumentRole::Content);
}
