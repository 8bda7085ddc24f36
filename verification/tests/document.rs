use kotoclip_core::document::{
    propagate_stage_invalidation, AnalysisStage, DocumentSession, PatchKind, SessionRevisionError,
    StageInvalidation,
};
use kotoclip_core::token::{AnnotatedToken, Bunsetsu, Morpheme};

fn token(surface: &str, range: (usize, usize)) -> AnnotatedToken {
    AnnotatedToken {
        bunsetsu: Bunsetsu {
            surface: surface.to_string(),
            morphemes: vec![Morpheme { surface: surface.to_string(), char_range: range }],
            char_range: range,
        },
        is_selected: false,
        is_known: false,
        expressions: Vec::new(),
        display_class: "content".to_string(),
    }
}

#[test]
fn rejects_stale_revision_and_keeps_ids_stable_for_annotation_changes() {
    let mut session = DocumentSession::new(
        "session-1".to_string(),
        "日本語".to_string(),
        vec![token("日本", (0, 2)), token("語", (2, 3))],
    );
    let original_ids = session.token_ids().to_vec();
    let mut updated = session.tokens.clone();
    updated[0].is_known = true;
    let patch = session
        .replace_all(1, "日本語".to_string(), updated)
        .expect("当前 revision 应接受更新");
    assert_eq!(patch.token_ids, original_ids);
    assert_eq!(patch.revision, 2);
    let error = session
        .replace_all(1, "旧结果".to_string(), Vec::new())
        .err()
        .expect("旧 revision 必须被拒绝");
    assert_eq!(
        error,
        SessionRevisionError {
            expected: 2,
            received: 1,
        }
    );
}

#[test]
fn range_patch_only_contains_intersecting_tokens() {
    let mut session = DocumentSession::new(
        "session-1".to_string(),
        "日本語".to_string(),
        vec![token("日本", (0, 2)), token("語", (2, 3))],
    );
    let opened = session.full_patch(0);
    let string_count = opened.analysis.s.len();
    let patch = session.range_patch(1, (1, 2)).expect("revision 应匹配");
    assert_eq!(patch.kind, PatchKind::RangeReplace);
    assert_eq!(patch.token_ids.len(), 1);
    assert_eq!(patch.ordered_token_ids.len(), 2);
    assert_eq!(patch.analysis.b as usize, string_count);
    assert!(patch.analysis.s.is_empty(), "重复范围不应重发已有字符串");
}

#[test]
fn token_mutation_reports_exact_invalidated_stages() {
    let mut session = DocumentSession::new(
        "session-1".to_string(),
        "日本語".to_string(),
        vec![token("日本", (0, 2)), token("語", (2, 3))],
    );
    session.full_patch(0);
    let mut tokens = session.tokens.clone();
    tokens[0].is_known = true;
    let patch = session
        .apply_token_mutation(
            1,
            "mark_known".to_string(),
            vec![
                StageInvalidation {
                    stage: AnalysisStage::Profile,
                    char_ranges: vec![(0, 2)],
                },
                StageInvalidation {
                    stage: AnalysisStage::Presentation,
                    char_ranges: vec![(0, 2)],
                },
            ],
            tokens,
            vec![0],
        )
        .expect("画像 mutation 应成功");
    assert_eq!(patch.kind, PatchKind::TokenUpdate);
    assert_eq!(patch.token_ids.len(), 1);
    assert!(
        patch.ordered_token_ids.is_empty(),
        "非结构 mutation 不应重发全文 Token 顺序"
    );
    let invalidation = patch.invalidation.expect("必须返回失效报告");
    assert_eq!(
        invalidation.stages,
        vec![AnalysisStage::Profile, AnalysisStage::Presentation]
    );
    assert_eq!(invalidation.recomputed_characters, 2);
    assert_eq!(invalidation.total_characters, 3);
}

#[test]
fn stage_invalidation_uses_canonical_downstream_chain() {
    let structural = propagate_stage_invalidation(AnalysisStage::WordFormation, vec![(2, 4)]);
    assert_eq!(
        structural.iter().map(|item| item.stage).collect::<Vec<_>>(),
        vec![
            AnalysisStage::WordFormation,
            AnalysisStage::DictionaryLexical,
            AnalysisStage::Bunsetsu,
            AnalysisStage::Grammar,
            AnalysisStage::Profile,
            AnalysisStage::Expression,
            AnalysisStage::Presentation,
        ]
    );
    let profile = propagate_stage_invalidation(AnalysisStage::Profile, vec![(2, 4)]);
    assert_eq!(
        profile.iter().map(|item| item.stage).collect::<Vec<_>>(),
        vec![AnalysisStage::Profile, AnalysisStage::Presentation]
    );
}

#[test]
fn exposure_is_deferred_until_progressive_document_is_complete() {
    let mut session = DocumentSession::new_progressive(
        "session-1".to_string(),
        "一行目。\n二行目。".to_string(),
        true,
    );
    assert!(!session.should_record_exposure());
    while let Some(batch) = session.next_batch(1) {
        session
            .append_analyzed_batch(session.revision, &batch, Vec::new())
            .expect("批次提交应成功");
    }
    assert!(session.should_record_exposure());
    session.mark_exposure_recorded();
    assert!(!session.should_record_exposure());
}

#[test]
fn sequential_append_uses_delta_order_after_full_first_patch() {
    let mut session = DocumentSession::new_progressive(
        "session-1".to_string(),
        "一\n二\n三".to_string(),
        false,
    );
    let first = session.next_batch(1).expect("首批应存在");
    let first_patch = session
        .append_analyzed_batch(0, &first, vec![token("一", (0, 1))])
        .expect("首批应提交");
    assert_eq!(first_patch.ordered_token_ids.len(), 1);

    let second = session.next_batch(1).expect("第二批应存在");
    let second_patch = session
        .append_analyzed_batch(1, &second, vec![token("二", (0, 1))])
        .expect("顺序补块应提交");
    assert!(second_patch.ordered_token_ids.is_empty());
    assert_eq!(second_patch.token_ids.len(), 1);
}

#[test]
fn missing_range_can_be_analyzed_before_earlier_chunks() {
    let mut session = DocumentSession::new_progressive(
        "session-1".to_string(),
        "一\n二\n三".to_string(),
        false,
    );
    let last = session
        .batch_for_range((4, 5), 1)
        .expect("末尾范围应生成批次");
    session
        .append_analyzed_batch(0, &last, vec![token("三", (0, 1))])
        .expect("末尾批次应可先提交");
    assert_eq!(session.tokens[0].bunsetsu.char_range, (4, 5));
    let first = session.next_batch(1).expect("仍应存在前部批次");
    let patch = session
        .append_analyzed_batch(1, &first, vec![token("一", (0, 1))])
        .expect("前部批次应可后提交");
    assert_eq!(session.tokens[0].bunsetsu.char_range, (0, 1));
    assert_eq!(patch.token_ids.len(), session.tokens.len());
    assert_eq!(patch.available_ranges, vec![(0, 2), (4, 5)]);
}

#[test]
fn token_ids_spell_range_class_and_ordinal() {
    let session = DocumentSession::new(
        "s".to_string(),
        "日本日本".to_string(),
        vec![token("日本", (0, 2)), token("日本", (0, 2)), token("語", (2, 3))],
    );
    assert_eq!(
        session.token_ids().to_vec(),
        vec!["t:0:2:content:0", "t:0:2:content:1", "t:2:3:content:0"]
    );
}

#[test]
fn stale_revision_leaves_range_patch_unanswered() {
    let mut session = DocumentSession::new("s".to_string(), "語".to_string(), vec![token("語", (0, 1))]);
    let error = session.range_patch(7, (0, 1)).err().expect("stale");
    assert_eq!(error, SessionRevisionError { expected: 1, received: 7 });
    assert_eq!(error.message(), "文档 revision 已过期：当前 1，收到 7");
    assert_eq!(session.revision, 1);
}

#[test]
fn replace_all_reports_removed_ids() {
    let mut session = DocumentSession::new(
        "s".to_string(),
        "日本語".to_string(),
        vec![token("日本", (0, 2)), token("語", (2, 3))],
    );
    let patch = session
        .replace_all(1, "日本".to_string(), vec![token("日本", (0, 2))])
        .expect("current revision");
    assert_eq!(patch.removed_token_ids, vec!["t:2:3:content:0".to_string()]);
    assert_eq!(patch.char_range, (0, 2));
}
