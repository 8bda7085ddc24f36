use kotoclip_core::cli::{
    extract_chapter, is_lexical, limit_benchmark_text, parse_index_list, render_matched_context,
    DeterministicRng,
};

#[test]
fn extracts_requested_markdown_chapter() {
    let source = "# 书\n第一話\n第二話\n## 第一話\n甲\n乙\n## 第二話\n丙";
    assert_eq!(extract_chapter(source, Some("第一話")).unwrap(), "甲\n乙");
    assert_eq!(extract_chapter(source, Some("## 第二話")).unwrap(), "丙");
}

#[test]
fn missing_chapter_is_reported_and_no_request_keeps_the_source() {
    let source = "## 一\r\nA\n## 二\nB";
    assert_eq!(extract_chapter(source, None).unwrap(), source);
    assert_eq!(extract_chapter(source, Some("一")).unwrap(), "A");
    assert_eq!(
        extract_chapter(source, Some("三")).unwrap_err(),
        "找不到章节标题：三"
    );
}

#[test]
fn benchmark_samples_and_lexical_parts_of_speech() {
    assert_eq!(limit_benchmark_text("日本語", 2), "日本");
    assert_eq!(limit_benchmark_text("日本語", 0), "日本語");
    assert_eq!(limit_benchmark_text("日本語", 9), "日本語");
    assert!(is_lexical("動詞"));
    assert!(!is_lexical("助詞"));
}

#[test]
fn generator_is_deterministic_xorshift() {
    let mut a = DeterministicRng::new(0);
    assert_eq!(a.0, 1);
    let first = a.next_u64();
    let mut v: u64 = 1;
    v ^= v << 13;
    v ^= v >> 7;
    v ^= v << 17;
    assert_eq!(first, v);
    let mut b = DeterministicRng::new(1);
    assert_eq!(b.next_u64(), first);
    assert_eq!(b.usize(0), 0);
    let state = b.0;
    let pick = b.usize(10);
    assert!(pick < 10);
    assert_ne!(b.0, state);
}

#[test]
fn matched_context_marks_ranges_within_padding() {
    assert_eq!(render_matched_context("abcdef\ng", &[(2, 4)], 1), "b【cd】e");
    assert_eq!(render_matched_context("ab\ncd", &[(0, 1), (3, 5)], 10), "【a】b 【cd】");
    assert_eq!(render_matched_context("abc", &[], 1), "");
}

#[test]
fn index_lists_skip_blanks_and_reject_non_numbers() {
    assert_eq!(parse_index_list(None).unwrap(), Vec::<usize>::new());
    assert_eq!(parse_index_list(Some(" 3, +5,, 8 ")).unwrap(), vec![3, 5, 8]);
    assert_eq!(parse_index_list(Some("1,x,2")).unwrap_err(), "x");
    assert_eq!(parse_index_list(Some("99999999999999999999999")).unwrap_err(), "99999999999999999999999");
}
