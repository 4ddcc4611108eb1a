use fusiongraph::ontology::{
    EdgeDefinition, EdgeDirection, IdColumn, IdTransform, IdType, NodeDefinition, Ontology,
    OntologyError, OntologyMeta, OntologySettings,
};

fn node(label: &str) -> NodeDefinition {
    NodeDefinition {
        label: label.to_string(),
        source: format!("{}s", label.to_lowercase()),
        id_column: IdColumn::Single("id".to_string()),
        id_transform: IdTransform::default(),
        properties: Vec::new(),
        filter: None,
    }
}

fn edge(label: &str, from: &str, to: &str) -> EdgeDefinition {
    EdgeDefinition {
        label: label.to_string(),
        source: "edges".to_string(),
        from_node: from.to_string(),
        from_column: "from_id".to_string(),
        to_node: to.to_string(),
        to_column: "to_id".to_string(),
        properties: Vec::new(),
        weight_column: None,
        weight_default: 1.0f64.to_bits(),
        implicit: false,
        skip_null_targets: true,
        valid_from_column: None,
        valid_to_column: None,
        partition_column: None,
    }
}

fn ontology(nodes: Vec<NodeDefinition>, edges: Vec<EdgeDefinition>) -> Ontology {
    Ontology {
        ontology: OntologyMeta::default(),
        settings: OntologySettings::default(),
        nodes,
        edges,
        properties: Vec::new(),
    }
}

#[test]
fn id_column_single() {
    let col = IdColumn::Single("user_id".to_string());
    assert_eq!(col.columns(), vec!["user_id"]);
}

#[test]
fn id_column_composite() {
    let col = IdColumn::Composite {
        columns: vec!["account_id".to_string(), "region".to_string()],
        separator: "::".to_string(),
    };
    assert_eq!(col.columns(), vec!["account_id", "region"]);
}

#[test]
fn default_settings() {
    let settings = OntologySettings::default();
    assert_eq!(settings.default_node_id_type, IdType::U64);
    assert_eq!(settings.edge_direction, EdgeDirection::Directed);
    assert!(!settings.allow_self_loops);
    assert!(settings.allow_parallel_edges);
}

#[test]
fn valid_ontology_passes() {
    let o = ontology(vec![node("User"), node("Group")], vec![edge("BELONGS_TO", "User", "Group")]);
    let result = o.validate();
    assert!(result.is_valid());
}

#[test]
fn duplicate_node_label_fails() {
    let o = ontology(vec![node("User"), node("User")], Vec::new());
    let result = o.validate();
    assert!(!result.is_valid());
    assert!(result.errors.iter().any(|e| e.code == "FG-ONT-E004"));
}

#[test]
fn dangling_edge_fails() {
    let o = ontology(vec![node("User")], vec![edge("BELONGS_TO", "User", "NonExistent")]);
    let result = o.validate();
    assert!(!result.is_valid());
    assert!(result.errors.iter().any(|e| e.code == "FG-ONT-E003"));
}

#[test]
fn temporal_without_partition_warns() {
    let mut accessed = edge("ACCESSED", "User", "Resource");
    accessed.valid_from_column = Some("event_time".to_string());
    let o = ontology(vec![node("User"), node("Resource")], vec![accessed]);
    let result = o.validate();
    assert!(result.is_valid());
    assert!(result.has_warnings());
    assert!(result.warnings.iter().any(|w| w.code == "FG-ONT-W002"));
}

#[test]
fn validation_messages_name_the_labels() {
    let o = ontology(
        vec![node("User"), node("User")],
        vec![edge("E", "User", "Ghost"), edge("E", "Ghost", "User")],
    );
    let result = o.validate();
    let messages: Vec<&str> = result.errors.iter().map(|e| e.message.as_str()).collect();
    assert_eq!(
        messages,
        vec![
            "Duplicate node label 'User'",
            "Duplicate edge label 'E'",
            "Edge 'E' references undefined node 'Ghost'",
            "Edge 'E' references undefined node 'Ghost'",
        ]
    );
}

#[test]
fn validate_or_error_reports_first_error_kind() {
    let dangling = ontology(vec![node("User")], vec![edge("E", "User", "Ghost")]);
    assert!(matches!(
        dangling.validate_or_error(),
        Err(OntologyError::DanglingEdge { ref edge, ref node }) if edge == "E" && node == "Ghost"
    ));

    let duplicate = ontology(vec![node("User"), node("User")], Vec::new());
    assert!(matches!(
        duplicate.validate_or_error(),
        Err(OntologyError::DuplicateLabel { ref kind, ref label }) if kind == "node" && label == "User"
    ));

    let ok = ontology(vec![node("User")], Vec::new());
    assert!(ok.validate_or_error().is_ok());
}

#[test]
fn validate_or_error_names_dangling_reference() {
    let o = ontology(vec![node("User")], vec![edge("BELONGS_TO", "User", "NonExistent")]);
    let err = o.validate_or_error().unwrap_err();
    assert_eq!(err.code(), "FG-ONT-E003");
    assert!(matches!(
        err,
        OntologyError::DanglingEdge { ref edge, ref node } if edge == "BELONGS_TO" && node == "NonExistent"
    ));
}

#[test]
fn validate_or_error_names_repeated_edge_label() {
    let o = ontology(
        vec![node("User"), node("Group")],
        vec![edge("E", "User", "Group"), edge("F", "Group", "Ghost"), edge("E", "Group", "User")],
    );
    assert!(matches!(
        o.validate_or_error(),
        Err(OntologyError::DuplicateLabel { ref kind, ref label }) if kind == "edge" && label == "E"
    ));
}

#[test]
fn validate_or_error_reports_source_end_first() {
    let o = ontology(vec![node("User")], vec![edge("E", "Ghost", "Phantom")]);
    assert!(matches!(
        o.validate_or_error(),
        Err(OntologyError::DanglingEdge { ref edge, ref node }) if edge == "E" && node == "Ghost"
    ));
}

#[test]
fn lookup_by_label_finds_first_definition() {
    let mut first = node("User");
    first.source = "first".to_string();
    let o = ontology(vec![first, node("User"), node("Group")], vec![edge("E", "User", "Group")]);
    assert_eq!(o.node("User").unwrap().source, "first");
    assert!(o.node("Nope").is_none());
    assert_eq!(o.edge("E").unwrap().to_node, "Group");
    assert!(o.edge("F").is_none());
    assert_eq!(o.node_labels(), vec!["User", "User", "Group"]);
    assert_eq!(o.edge_labels(), vec!["E"]);
}

#[test]
fn error_codes() {
    let e = OntologyError::MissingField { field: "label".to_string(), context: "node".to_string() };
    assert_eq!(e.code(), "FG-ONT-E002");
    let e = OntologyError::ParseError { message: String::new() };
    assert_eq!(e.code(), "FG-ONT-E001");
}
