use blackmamba_paint::knowledge::{
    ArtReference, ArtworkKnowledge, Concept, ConceptKind, KnowledgeError, KnowledgeGraph,
    ReferenceRole, RelationKind, RuleStrength, WorldRule,
};

#[test]
fn concepts_form_cross_domain_art_relationships() {
    let mut graph: KnowledgeGraph<f32> = KnowledgeGraph::default();
    let bauhaus = graph.add_concept(
        Concept::new("Bauhaus".to_string(), ConceptKind::Movement)
            .tag("geometry".to_string())
            .tag("design".to_string()),
    );
    let architecture = graph.add_concept(Concept::new(
        "Modernist architecture".to_string(),
        ConceptKind::Architecture,
    ));
    let color = graph.add_concept(Concept::new(
        "Primary color systems".to_string(),
        ConceptKind::ColorTheory,
    ));
    graph
        .relate(bauhaus, architecture, RelationKind::Influences, 0.9)
        .unwrap();
    graph
        .relate(bauhaus, color, RelationKind::AssociatedWith, 0.8)
        .unwrap();

    let related = graph.related(bauhaus).unwrap();
    assert_eq!(related.len(), 2);
    assert_eq!(graph.search("geometry").len(), 1);
}

#[test]
fn one_reference_can_have_explicit_independent_roles() {
    let graph: KnowledgeGraph<f32> = KnowledgeGraph::default();
    let mut artwork = ArtworkKnowledge::new(());
    let reference = ArtReference::new("night street reference".to_string())
        .role(ReferenceRole::Lighting)
        .role(ReferenceRole::Color);
    artwork.add_reference(&graph, reference).unwrap();

    assert_eq!(
        artwork.references_for_role(&ReferenceRole::Lighting).len(),
        1
    );
    assert_eq!(artwork.references_for_role(&ReferenceRole::Pose).len(), 0);
}

#[test]
fn world_bible_can_distinguish_suggestions_from_canon() {
    let mut artwork = ArtworkKnowledge::new(());
    artwork.add_world_rule(WorldRule::new(
        "warning color".to_string(),
        "white".to_string(),
        RuleStrength::Canon,
    ));
    artwork.add_world_rule(WorldRule::new(
        "ornament density".to_string(),
        "low".to_string(),
        RuleStrength::Suggestion,
    ));

    assert_eq!(artwork.world_rules.len(), 2);
    assert!(artwork
        .world_rules
        .values()
        .any(|rule| rule.strength == RuleStrength::Canon));
}

#[test]
fn tags_are_normalized_and_kept_once() {
    let concept = Concept::new("Ink".to_string(), ConceptKind::Technique)
        .tag("  Cross Hatching ".to_string())
        .tag("cross hatching".to_string())
        .tag("Line".to_string());
    assert_eq!(concept.tags, vec!["cross hatching".to_string(), "line".to_string()]);
}

#[test]
fn search_matches_names_descriptions_and_tags_case_insensitively() {
    let mut graph: KnowledgeGraph<f32> = KnowledgeGraph::default();
    let a = graph.add_concept(Concept::new("Chiaroscuro".to_string(), ConceptKind::Technique));
    let b = graph.add_concept(
        Concept::new("Tenebrism".to_string(), ConceptKind::Style)
            .with_description("Extreme CHIAROSCURO contrast".to_string()),
    );
    let c = graph.add_concept(
        Concept::new("Sfumato".to_string(), ConceptKind::Technique).tag("soft light".to_string()),
    );
    let mut chiaroscuro: Vec<u128> = graph.search("  chiaroscuro ").iter().map(|c| c.id).collect();
    chiaroscuro.sort();
    let mut expected = vec![a, b];
    expected.sort();
    assert_eq!(chiaroscuro, expected);
    let light: Vec<u128> = graph.search("LIGHT").iter().map(|c| c.id).collect();
    assert_eq!(light, vec![c]);
    assert!(graph.search("   ").is_empty());
    assert!(graph.search("impasto").is_empty());
}

#[test]
fn relations_require_both_concepts() {
    let mut graph: KnowledgeGraph<f32> = KnowledgeGraph::default();
    let a = graph.add_concept(Concept::new("A".to_string(), ConceptKind::Symbol));
    let missing = a.wrapping_add(1);
    assert_eq!(
        graph.relate(a, missing, RelationKind::Uses, 0.5),
        Err(KnowledgeError::MissingConcept(missing))
    );
    assert_eq!(
        graph.relate(missing, a, RelationKind::Uses, 0.5),
        Err(KnowledgeError::MissingConcept(missing))
    );
    assert!(graph.relations.is_empty());
    assert_eq!(graph.related(missing).unwrap_err(), KnowledgeError::MissingConcept(missing));
}

#[test]
fn related_reports_both_directions() {
    let mut graph: KnowledgeGraph<f32> = KnowledgeGraph::default();
    let a = graph.add_concept(Concept::new("A".to_string(), ConceptKind::Symbol));
    let b = graph.add_concept(Concept::new("B".to_string(), ConceptKind::Symbol));
    let c = graph.add_concept(Concept::new("C".to_string(), ConceptKind::Symbol));
    graph.relate(b, a, RelationKind::DerivedFrom, 0.3).unwrap();
    graph.relate(b, c, RelationKind::SimilarTo, 0.3).unwrap();
    let from_a: Vec<u128> = graph.related(a).unwrap().iter().map(|c| c.id).collect();
    assert_eq!(from_a, vec![b]);
    let mut from_b: Vec<u128> = graph.related(b).unwrap().iter().map(|c| c.id).collect();
    from_b.sort();
    let mut expected = vec![a, c];
    expected.sort();
    assert_eq!(from_b, expected);
}

#[test]
fn references_with_unknown_concepts_are_rejected() {
    let mut graph: KnowledgeGraph<f32> = KnowledgeGraph::default();
    let known = graph.add_concept(Concept::new("Known".to_string(), ConceptKind::Context));
    let unknown = known.wrapping_add(7);
    let mut artwork = ArtworkKnowledge::new(());
    let reference = ArtReference::new("photo".to_string()).concept(known).concept(unknown);
    assert_eq!(
        artwork.add_reference(&graph, reference),
        Err(KnowledgeError::MissingConcept(unknown))
    );
    assert!(artwork.references.is_empty());
    assert_eq!(artwork.attach_concept(&graph, unknown), Err(KnowledgeError::MissingConcept(unknown)));
    artwork.attach_concept(&graph, known).unwrap();
    assert!(artwork.concept_ids.contains(&known));
}

#[test]
fn custom_roles_compare_by_text() {
    let reference = ArtReference::new("fabric".to_string())
        .role(ReferenceRole::Custom("drape".to_string()))
        .role(ReferenceRole::Custom("drape".to_string()))
        .role(ReferenceRole::Texture);
    assert_eq!(reference.roles.len(), 2);
    let mut artwork = ArtworkKnowledge::new(());
    artwork.add_reference(&KnowledgeGraph::<f32>::default(), reference).unwrap();
    assert_eq!(
        artwork
            .references_for_role(&ReferenceRole::Custom("drape".to_string()))
            .len(),
        1
    );
    assert_eq!(
        artwork
            .references_for_role(&ReferenceRole::Custom("pleat".to_string()))
            .len(),
        0
    );
}

#[test]
fn tags_are_kept_in_text_order() {
    let concept = Concept::new("Palette".to_string(), ConceptKind::ColorTheory)
        .tag("Zebra".to_string())
        .tag("apple".to_string())
        .tag("Mango".to_string())
        .tag("app".to_string())
        .tag("Éclair".to_string());
    assert_eq!(
        concept.tags,
        vec![
            "app".to_string(),
            "apple".to_string(),
            "mango".to_string(),
            "zebra".to_string(),
            "éclair".to_string()
        ]
    );
}

#[test]
fn roles_are_kept_in_declaration_then_text_order() {
    let reference = ArtReference::new("mixed".to_string())
        .role(ReferenceRole::Custom("weave".to_string()))
        .role(ReferenceRole::Perspective)
        .role(ReferenceRole::Custom("drape".to_string()))
        .role(ReferenceRole::Pose)
        .role(ReferenceRole::Lighting)
        .role(ReferenceRole::Pose);
    assert_eq!(
        reference.roles,
        vec![
            ReferenceRole::Pose,
            ReferenceRole::Lighting,
            ReferenceRole::Perspective,
            ReferenceRole::Custom("drape".to_string()),
            ReferenceRole::Custom("weave".to_string())
        ]
    );
}
