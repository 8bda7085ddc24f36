use kotoclip_core::grammar_catalog::{search, GrammarConcept};

fn concept(id: &str, kind: &str, label: &str, aliases: &[&str], level: Option<u8>, enabled: bool) -> GrammarConcept {
    GrammarConcept {
        concept_id: id.to_string(),
        kind: kind.to_string(),
        canonical_label: label.to_string(),
        aliases: aliases.iter().map(|a| a.to_string()).collect(),
        semantic_domains: vec!["Morphology".to_string()],
        function_tags: Vec::new(),
        jlpt_level: level,
        register: Vec::new(),
        related_concept_ids: Vec::new(),
        contrast_concept_ids: Vec::new(),
        default_explanation_id: format!("{id}.explanation"),
        source_refs: vec!["grammar-book".to_string()],
        audit_status: "reviewed".to_string(),
        concept_version: 1,
        enabled,
    }
}

fn catalog() -> Vec<GrammarConcept> {
    vec![
        concept("morphology.chain", "Inflection", "活用链", &["Conjugation Chain"], Some(4), true),
        concept("particle.wa", "particle", "は", &[], Some(5), true),
        concept("hidden.item", "particle", "活用链", &[], Some(4), false),
    ]
}

fn ids(found: &[GrammarConcept]) -> Vec<&str> {
    found.iter().map(|c| c.concept_id.as_str()).collect()
}

#[test]
fn search_matches_ids_labels_and_aliases_ignoring_case() {
    assert_eq!(ids(&search(catalog(), Some("活用链"), None, None, None, None)), vec!["morphology.chain"]);
    assert_eq!(ids(&search(catalog(), Some("  CONJUGATION "), None, None, None, None)), vec!["morphology.chain"]);
    assert_eq!(ids(&search(catalog(), Some("PARTICLE."), None, None, None, None)), vec!["particle.wa"]);
    assert_eq!(ids(&search(catalog(), None, None, None, None, None)), vec!["morphology.chain", "particle.wa"]);
}

#[test]
fn search_filters_by_family_level_status_and_source() {
    assert_eq!(ids(&search(catalog(), None, Some("inflection"), None, None, None)), vec!["morphology.chain"]);
    assert_eq!(ids(&search(catalog(), None, Some("morphology"), None, None, None)).len(), 2);
    assert_eq!(ids(&search(catalog(), None, Some("  "), Some(5), None, None)), vec!["particle.wa"]);
    assert!(search(catalog(), None, None, None, Some("draft"), None).is_empty());
    assert_eq!(search(catalog(), None, None, None, None, Some("grammar-book")).len(), 2);
    assert!(search(catalog(), None, None, None, None, Some("other")).is_empty());
}

use kotoclip_core::grammar_catalog::{get, GrammarCatalog, GrammarExplanationDocument, GrammarSense};

fn sense(id: &str, concept: &str) -> GrammarSense {
    GrammarSense {
        sense_id: id.to_string(),
        concept_id: concept.to_string(),
        label: id.to_string(),
        function_summary: String::new(),
        semantic_features: "null".to_string(),
        context_requirements: Vec::new(),
        exclusion_conditions: Vec::new(),
        related_sense_ids: Vec::new(),
        contrast_sense_ids: Vec::new(),
        explanation_id: String::new(),
        sense_version: 1,
        audit_status: "reviewed".to_string(),
    }
}

fn explanation(id: &str, concept: &str) -> GrammarExplanationDocument {
    GrammarExplanationDocument {
        explanation_id: id.to_string(),
        concept_id: concept.to_string(),
        sense_id: None,
        language: "zh-CN".to_string(),
        title: format!("{id} title"),
        compact_summary: String::new(),
        function_summary: String::new(),
        connection: String::new(),
        formation: String::new(),
        usage_notes: vec!["note".to_string()],
        semantic_constraints: Vec::new(),
        pragmatic_notes: Vec::new(),
        examples: Vec::new(),
        counter_examples: Vec::new(),
        source_refs: Vec::new(),
        authoring_status: "draft".to_string(),
        content_version: 1,
        provenance: None,
        review_status: "pending".to_string(),
        body_blocks: Vec::new(),
    }
}

fn library() -> (GrammarCatalog, Vec<GrammarExplanationDocument>) {
    let catalog = GrammarCatalog {
        concepts: catalog(),
        senses: vec![sense("s1", "particle.wa"), sense("s2", "morphology.chain"), sense("s3", "particle.wa")],
    };
    let docs = vec![
        explanation("other", "particle.wa"),
        explanation("morphology.chain.explanation", "morphology.chain"),
        explanation("particle.wa.explanation", "particle.wa"),
    ];
    (catalog, docs)
}

#[test]
fn get_bundles_concept_senses_and_default_explanation() {
    let (catalog, docs) = library();
    let bundle = get(catalog, docs, "particle.wa").unwrap();
    assert_eq!(bundle.concept.concept_id, "particle.wa");
    let senses: Vec<&str> = bundle.senses.iter().map(|s| s.sense_id.as_str()).collect();
    assert_eq!(senses, vec!["s1", "s3"]);
    assert_eq!(bundle.explanation.explanation_id, "particle.wa.explanation");
    assert_eq!(bundle.explanation.usage_notes, vec!["note".to_string()]);
    let ids: Vec<&str> = bundle.explanations.iter().map(|d| d.explanation_id.as_str()).collect();
    assert_eq!(ids, vec!["other", "particle.wa.explanation"]);
}

#[test]
fn get_falls_back_to_first_explanation_and_reports_errors() {
    let (catalog, _) = library();
    let bundle = get(catalog, vec![explanation("first", "hidden.item"), explanation("second", "hidden.item")], "hidden.item").unwrap();
    assert_eq!(bundle.explanation.explanation_id, "first");
    let (catalog, docs) = library();
    assert_eq!(get(catalog, docs, "missing").err().unwrap(), "语法 concept 不存在：missing");
    let (catalog, _) = library();
    assert_eq!(get(catalog, Vec::new(), "particle.wa").err().unwrap(), "语法 concept 缺少讲解：particle.wa");
}
