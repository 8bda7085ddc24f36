use kotoclip_core::expression_catalog::{collect, Atom, CatalogMorpheme, Pattern};

fn morpheme(surface: &str, range: (usize, usize), pos: &str) -> CatalogMorpheme {
    CatalogMorpheme {
        surface: surface.to_string(),
        char_range: range,
        pos: vec![Some(pos.to_string()), None, None, None],
        lemma: Some(surface.to_string()),
    }
}

fn atom(lemmas: &[&str], pos: Option<&str>) -> Atom {
    Atom { lemmas: lemmas.iter().map(|s| s.to_string()).collect(), surfaces: Vec::new(), pos: pos.map(|p| p.to_string()) }
}

fn idiom() -> Pattern {
    Pattern {
        id: "idiom_mimi_wo_katamukeru".to_string(),
        expression_type: None,
        label: "耳を傾ける".to_string(),
        description: "listen".to_string(),
        category: "idiom".to_string(),
        atoms: vec![atom(&["耳"], Some("名詞")), atom(&["を"], None), atom(&["傾ける"], Some("動詞"))],
    }
}

fn sentence() -> Vec<CatalogMorpheme> {
    vec![
        morpheme("耳", (0, 1), "名詞"),
        morpheme("を", (1, 2), "助詞"),
        morpheme("傾ける", (2, 5), "動詞"),
    ]
}

#[test]
fn patterns_match_consecutive_morphemes() {
    let particle = Pattern {
        id: "wo".to_string(),
        expression_type: Some("particle".to_string()),
        label: String::new(),
        description: String::new(),
        category: String::new(),
        atoms: vec![atom(&[], Some("助詞"))],
    };
    let found = collect(&[idiom(), particle], "耳を傾ける", &sentence()).unwrap();
    assert_eq!(found.len(), 2);
    assert_eq!(found[0].id, "expression:idiom_mimi_wo_katamukeru:0");
    assert_eq!(found[0].rule_id.as_deref(), Some("idiom_mimi_wo_katamukeru"));
    assert_eq!(found[0].char_range, (0, 5));
    assert_eq!(found[0].morpheme_indices, vec![0, 1, 2]);
    assert_eq!(found[0].expression_type, "grammar_construction");
    assert_eq!(found[0].labels, vec!["耳を傾ける".to_string(), "category:idiom".to_string()]);
    assert_eq!(found[0].evidence, vec!["catalog:expression_patterns.json".to_string(), "description:listen".to_string()]);
    assert_eq!(found[0].provider, "builtin-expression-catalog");
    assert_eq!(found[1].id, "expression:wo:1");
    assert_eq!(found[1].expression_type, "particle");
    assert!(found[1].labels.is_empty());
}

#[test]
fn pattern_longer_than_text_or_without_atoms_finds_nothing() {
    let empty = Pattern { atoms: Vec::new(), ..idiom() };
    assert!(collect(&[empty], "耳", &sentence()[..1]).unwrap().is_empty());
    assert!(collect(&[idiom()], "耳を", &sentence()[..2]).unwrap().is_empty());
}

#[test]
fn match_past_the_text_is_an_error() {
    match collect(&[idiom()], "耳を", &sentence()) {
        Err(e) => assert_eq!(e, "表达 idiom_mimi_wo_katamukeru 范围超出文本"),
        Ok(_) => panic!("expected an error"),
    }
}
