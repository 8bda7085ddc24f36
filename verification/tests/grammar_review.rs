use kotoclip_core::grammar_catalog::GrammarConcept;
use kotoclip_core::grammar_review::{
    review_batch, review_lines, review_sheets, GrammarOccurrence, GrammarReviewItem,
    OccurrenceStatus, ReviewOptions,
};

fn concept(id: &str, kind: &str, tags: &[&str]) -> GrammarConcept {
    GrammarConcept {
        concept_id: id.to_string(),
        kind: kind.to_string(),
        canonical_label: id.to_string(),
        aliases: Vec::new(),
        semantic_domains: Vec::new(),
        function_tags: tags.iter().map(|t| t.to_string()).collect(),
        jlpt_level: None,
        register: Vec::new(),
        related_concept_ids: Vec::new(),
        contrast_concept_ids: Vec::new(),
        default_explanation_id: format!("{id}.explanation"),
        source_refs: Vec::new(),
        audit_status: "reviewed".to_string(),
        concept_version: 1,
        enabled: true,
    }
}

fn occurrence(id: &str, concept: &str, status: OccurrenceStatus, start: usize, badge: bool) -> GrammarOccurrence {
    GrammarOccurrence {
        occurrence_id: id.to_string(),
        concept_id: concept.to_string(),
        rule_id: "rule".to_string(),
        status,
        anchor_range: (start, start + 1),
        capture_surfaces: vec!["て".to_string(), "いる".to_string()],
        show_badge: badge,
    }
}

fn options(family: Option<&str>, atoms: bool, morphemes: bool) -> ReviewOptions {
    ReviewOptions { family: family.map(|f| f.to_string()), include_atoms: atoms, include_morphemes: morphemes }
}

#[test]
fn lines_are_laid_end_to_end() {
    let lines = review_lines(&[("一行目\r\n".to_string(), 4), ("二行目".to_string(), 3)], "一行目\r\n二行目");
    assert_eq!(lines.len(), 2);
    assert_eq!((lines[0].number, lines[0].start, lines[0].end), (1, 0, 4));
    assert_eq!(lines[0].text, "一行目");
    assert_eq!((lines[1].number, lines[1].start, lines[1].end), (2, 4, 7));
    let single = review_lines(&[], "abc");
    assert_eq!((single.len(), single[0].end), (1, 3));
}

#[test]
fn sheets_group_by_line_and_score_issues() {
    let lines = review_lines(&[("abcd\n".to_string(), 5), ("efgh\n".to_string(), 5), ("ijkl".to_string(), 4)], "");
    let catalog = vec![concept("aspect.teiru", "aspect", &["progressive"]), concept("case.ga", "particle", &[])];
    let explanations = vec!["aspect.teiru.explanation".to_string()];
    let occurrences = vec![
        occurrence("o1", "aspect.teiru", OccurrenceStatus::Accepted, 1, true),
        occurrence("o2", "case.ga", OccurrenceStatus::Pending, 2, false),
        occurrence("o3", "case.ga", OccurrenceStatus::Accepted, 6, false),
        occurrence("o4", "aspect.teiru", OccurrenceStatus::Unknown, 12, false),
        occurrence("o5", "case.ga", OccurrenceStatus::Rejected, 3, false),
    ];
    let sheets = review_sheets(&occurrences, &[7], &[0, 6, 12], &lines, &catalog, &explanations, &options(None, false, true));
    assert_eq!(sheets.len(), 3);
    assert_eq!(sheets[0].review_id, "line-1");
    assert_eq!(sheets[0].issue_score, 4);
    assert_eq!(sheets[0].accepted.len(), 1);
    assert_eq!(sheets[0].accepted[0].actual_form, "ている");
    assert!(sheets[0].accepted[0].explanation_ready);
    assert_eq!(sheets[0].pending[0].occurrence_id, "o2");
    assert!(!sheets[0].pending[0].explanation_ready);
    assert_eq!(sheets[0].rejected[0].occurrence_id, "o5");
    assert_eq!(sheets[0].morphemes, vec![0]);
    assert_eq!(sheets[1].line_number, 2);
    assert_eq!(sheets[1].issue_score, 5);
    assert!(sheets[1].accepted.is_empty());
    assert_eq!(sheets[1].residuals, vec![0]);
    assert_eq!(sheets[2].issue_score, 4);
    assert_eq!(sheets[2].pending[0].status, OccurrenceStatus::Unknown);

    let family = review_sheets(&occurrences, &[], &[], &lines, &catalog, &explanations, &options(Some("progressive"), true, false));
    assert_eq!(family.len(), 2);
    assert_eq!(family[0].accepted[0].occurrence_id, "o1");
    assert!(family[0].morphemes.is_empty());
}

fn sheet(line: usize, score: usize) -> GrammarReviewItem {
    GrammarReviewItem {
        review_id: format!("line-{line}"),
        line_number: line,
        text: String::new(),
        issue_score: score,
        accepted: Vec::new(),
        pending: Vec::new(),
        rejected: Vec::new(),
        residuals: Vec::new(),
        morphemes: Vec::new(),
    }
}

#[test]
fn batches_filter_order_and_cut() {
    let items: Vec<GrammarReviewItem> = (1..=45).map(|l| sheet(l, l % 3)).collect();
    let batch = review_batch(items, None, true, 20, 3, None).unwrap();
    assert_eq!((batch.batch, batch.total_items, batch.total_batches), (3, 45, 3));
    assert_eq!(batch.items.len(), 5);
    assert_eq!(batch.items[0].issue_score, 0);
    assert_eq!(batch.items[0].line_number, 33);
    let first = review_batch((1..=45).map(|l| sheet(l, l % 3)).collect(), None, true, 20, 0, None).unwrap();
    assert_eq!(first.batch, 1);
    assert_eq!((first.items[0].line_number, first.items[0].issue_score), (2, 2));

    let picked = review_batch(vec![sheet(1, 0), sheet(2, 0), sheet(5, 0)], Some(" 5,1"), false, 30, 1, Some("aspect".to_string())).unwrap();
    let lines: Vec<usize> = picked.items.iter().map(|i| i.line_number).collect();
    assert_eq!(lines, vec![1, 5]);
    assert_eq!(picked.total_batches, 1);
    assert_eq!(picked.family.as_deref(), Some("aspect"));

    let far = review_batch(vec![sheet(1, 0)], None, false, 20, 9, None).unwrap();
    assert!(far.items.is_empty());
}

#[test]
fn batch_errors_name_the_problem() {
    match review_batch(vec![sheet(1, 0)], Some("1,x"), false, 30, 1, None) {
        Err(e) => assert_eq!(e, "--lines 含非法行号：x"),
        Ok(_) => panic!("expected an error"),
    }
    match review_batch(vec![sheet(1, 0)], None, false, 10, 1, None) {
        Err(e) => assert_eq!(e, "--batch-size 必须在 20 到 50 之间"),
        Ok(_) => panic!("expected an error"),
    }
}
