use kotoclip_core::import::epub::{
    deduplicate_navigation, escape_markdown_alt, escape_yaml, heading_equivalent,
    image_media_type, is_external_reference, is_presentation_image,
    is_structural_navigation_title, looks_like_chapter_title, normalize_inline_text,
    normalize_spaced_title, percent_decode, resolve_reference, resolve_zip_path,
    select_chapters, strip_xml_declaration, token_list, DocumentMetrics, DocumentRole,
    NavigationEntry, SpineDocument,
};

fn entry(title: &str, path: &str, fragment: Option<&str>) -> NavigationEntry {
    NavigationEntry {
        title: title.to_string(),
        path: path.to_string(),
        fragment: fragment.map(str::to_string),
    }
}

fn copy(entries: &[NavigationEntry]) -> Vec<NavigationEntry> {
    entries
        .iter()
        .map(|e| entry(&e.title, &e.path, e.fragment.as_deref()))
        .collect()
}

#[test]
fn normalizes_only_titles_with_repeated_inter_character_spacing() {
    assert_eq!(normalize_spaced_title("　プ ロ ロ ー グ　"), "プロローグ");
    assert_eq!(normalize_spaced_title("C O N T E N T S"), "CONTENTS");
    assert_eq!(
        normalize_spaced_title("第一章　恋人とか、ぜったいにムリ！"),
        "第一章　恋人とか、ぜったいにムリ！"
    );
}

#[test]
fn treats_equivalent_dash_runs_as_the_same_heading() {
    assert!(heading_equivalent(
        "プロローグ　◎　自己紹介代わりの回想─元・天才美少女作家です",
        "　プロローグ　◎　自己紹介代わりの回想──元・天才美少女作家です",
    ));
}

#[test]
fn resolves_references_relative_to_the_containing_document() {
    assert_eq!(
        resolve_zip_path("OEBPS/content.opf", "text/chapter.xhtml"),
        "OEBPS/text/chapter.xhtml"
    );
    assert_eq!(
        resolve_reference("OEBPS/text/chapter.xhtml", "../images/scene%201.png#view").0,
        "OEBPS/images/scene 1.png"
    );
}

#[test]
fn accepts_authoritative_navigation_for_image_only_publications() {
    let navigation = vec![
        entry("笔ペンの種類と選び方", "page-1.xhtml", None),
        entry("正しい姿勢と持ち方", "page-2.xhtml", None),
    ];
    let documents = ["page-1.xhtml", "page-2.xhtml"]
        .into_iter()
        .map(|path| SpineDocument {
            path: path.to_string(),
            xhtml: String::new(),
            role: DocumentRole::Illustration,
            metrics: DocumentMetrics {
                text_chars: 0,
                links: 0,
                images: 1,
                headings: 0,
            },
        })
        .collect::<Vec<_>>();

    assert_eq!(
        select_chapters(&navigation, &documents, &[false, false]),
        navigation
    );
}

#[test]
fn accepts_matching_visual_heading_when_navigation_has_no_chapter_labels() {
    let navigation = vec![entry(
        "俺がまだ中学生だった頃の話である。",
        "chapter.xhtml",
        Some("start"),
    )];
    let documents = vec![SpineDocument {
        path: "chapter.xhtml".to_string(),
        xhtml: r#"<html><body id="start"><div><div class="title">俺がまだ中学生だった<ruby>頃<rt>ころ</rt></ruby>の話である。</div></div></body></html>"#.to_string(),
        role: DocumentRole::TitlePage,
        metrics: DocumentMetrics {
            text_chars: 16,
            links: 0,
            images: 0,
            headings: 0,
        },
    }];

    assert_eq!(select_chapters(&navigation, &documents, &[true]), navigation);
}

#[test]
fn keeps_descriptive_title_when_navigation_sources_share_a_target() {
    let entries = vec![
        entry("扉", "chapter.xhtml", Some("start")),
        entry("俺がまだ中学生だった頃の話である。", "chapter.xhtml", Some("start")),
    ];

    assert_eq!(
        deduplicate_navigation(entries)[0].title,
        "俺がまだ中学生だった頃の話である。"
    );
}

#[test]
fn explicit_chapter_labels_keep_visual_frontmatter_outside_body() {
    let navigation = vec![
        entry("書名", "title.xhtml", Some("title")),
        entry("底本データ", "source.xhtml", None),
        entry("プロローグ　本文", "prologue.xhtml", None),
    ];
    let documents = [
        (
            "title.xhtml",
            r#"<html><body id="title"><div class="title">書名</div></body></html>"#,
        ),
        ("source.xhtml", "<html><body><p>底本データ</p></body></html>"),
        ("prologue.xhtml", "<html><body><p>本文</p></body></html>"),
    ]
    .into_iter()
    .map(|(path, xhtml)| SpineDocument {
        path: path.to_string(),
        xhtml: xhtml.to_string(),
        role: DocumentRole::Content,
        metrics: DocumentMetrics {
            text_chars: 10,
            links: 0,
            images: 0,
            headings: 0,
        },
    })
    .collect::<Vec<_>>();

    assert_eq!(
        select_chapters(&navigation, &documents, &[true, false, false]),
        navigation[2..]
    );
}

#[test]
fn navigation_deduplication_keeps_first_of_equivalent_descriptive_titles() {
    let entries = vec![
        entry("第一章", "Text/One.xhtml", None),
        entry("第一章", "text/one.xhtml", None),
        entry("第二章", "text/two.xhtml", None),
    ];
    let unique = deduplicate_navigation(copy(&entries));
    assert_eq!(unique.len(), 2);
    assert_eq!(unique[0].path, "Text/One.xhtml");
    assert_eq!(unique[1].title, "第二章");
}

#[test]
fn structural_and_chapter_titles_are_recognized() {
    assert!(is_structural_navigation_title("目 次"));
    assert!(is_structural_navigation_title("Table of Contents"));
    assert!(!is_structural_navigation_title("第一章"));
    assert!(looks_like_chapter_title("第12話　再会"));
    assert!(looks_like_chapter_title("Chapter One"));
    assert!(!looks_like_chapter_title("あらすじ"));
}

#[test]
fn archive_paths_walk_parent_segments_and_decode() {
    assert_eq!(resolve_zip_path("/OEBPS\\text/a.xhtml", "../img/./b%20c.png"), "OEBPS/img/b c.png");
    assert_eq!(resolve_zip_path("a.xhtml", "../../x.png"), "x.png");
    let (path, fragment) = resolve_reference("OEBPS/a.xhtml", "  b.xhtml?x=1#%20a  ");
    assert_eq!(path, "OEBPS/b.xhtml");
    assert_eq!(fragment.as_deref(), Some(" a"));
    let (_, none) = resolve_reference("OEBPS/a.xhtml", "b.xhtml#");
    assert_eq!(none, None);
    assert_eq!(percent_decode("%E6%97%A5%zz%4"), "日%zz%4");
    assert_eq!(percent_decode("%FF"), "%FF");
}

#[test]
fn references_outside_the_book_are_recognized() {
    assert!(is_external_reference("  HTTPS://example.com"));
    assert!(is_external_reference("data:image/png;base64,AA"));
    assert!(!is_external_reference("text/chapter.xhtml"));
}

#[test]
fn markdown_and_yaml_values_are_escaped() {
    assert_eq!(escape_yaml("a\\b\"c\r\nd"), "a\\\\b\\\"c  d");
    assert_eq!(escape_markdown_alt("a]b\\"), "a\\]b\\\\");
}

#[test]
fn inline_text_and_tokens_are_normalized() {
    assert_eq!(normalize_inline_text("  Hello \n world…\n 日本 語"), "Hello world...日本語");
    assert_eq!(
        token_list(Some("Chapter title.Part_one-two/X")),
        vec!["chapter", "title", "part", "one", "two", "x"]
    );
    assert!(token_list(None).is_empty());
    assert_eq!(
        strip_xml_declaration("\u{feff}  <?xml version=\"1.0\"?>\n<!DOCTYPE html>\n<html/>"),
        "<html/>"
    );
    assert_eq!(image_media_type("images/Cover.JPG"), Some("image/jpeg"));
    assert_eq!(image_media_type("images/cover"), None);
    assert!(is_presentation_image(&["keep".to_string(), "space".to_string()]));
    assert!(!is_presentation_image(&["gaiji".to_string()]));
}
