use std::sync::Arc;

use fusiongraph::catalog::GraphCatalog;
use fusiongraph::csr::CsrGraph;
use fusiongraph::engine::DataFusionError;
use fusiongraph::ffi::FusionGraphStats;
use fusiongraph::loader::{graph_name, register_edge_graph};
use fusiongraph::ontology::{
    EdgeDefinition, IdColumn, IdTransform, IdType, NodeDefinition, Ontology, OntologyMeta, OntologySettings,
};
use fusiongraph::provider::{ColumnType, FieldSpec, GraphTableProvider};
use fusiongraph::traversal::{TraversalAlgorithm, TraversalDirection, TraversalSpec};
use fusiongraph::types::NodeId;

fn node(label: &str, source: &str, properties: &[&str]) -> NodeDefinition {
    NodeDefinition {
        label: label.to_string(),
        source: source.to_string(),
        id_column: IdColumn::Single("id".to_string()),
        id_transform: IdTransform::Passthrough,
        properties: properties.iter().map(|s| s.to_string()).collect(),
        filter: None,
    }
}

fn edge(label: &str, source: &str, from: (&str, &str), to: (&str, &str), properties: &[&str]) -> EdgeDefinition {
    EdgeDefinition {
        label: label.to_string(),
        source: source.to_string(),
        from_node: from.0.to_string(),
        from_column: from.1.to_string(),
        to_node: to.0.to_string(),
        to_column: to.1.to_string(),
        properties: properties.iter().map(|s| s.to_string()).collect(),
        weight_column: None,
        weight_default: 1.0f64.to_bits(),
        implicit: false,
        skip_null_targets: true,
        valid_from_column: None,
        valid_to_column: None,
        partition_column: None,
    }
}

/// The users/follows ontology of the provider's scenarios.
fn test_ontology() -> Ontology {
    Ontology {
        ontology: OntologyMeta::default(),
        settings: OntologySettings::default(),
        nodes: vec![node("User", "users", &["name", "email"])],
        edges: vec![edge(
            "FOLLOWS",
            "follows",
            ("User", "follower_id"),
            ("User", "followee_id"),
            &["since"],
        )],
        properties: Vec::new(),
    }
}

fn test_ontology_with_id_type(id_type: IdType) -> Ontology {
    let mut ontology = test_ontology();
    ontology.settings.default_node_id_type = id_type;
    ontology
}

fn field_names(fields: &[FieldSpec]) -> Vec<&str> {
    fields.iter().map(|f| f.name.as_str()).collect()
}

fn assert_id_fields(fields: &[FieldSpec], expected: ColumnType) {
    for f in fields {
        if ["node_id", "source_id", "target_id"].contains(&f.name.as_str()) {
            assert_eq!(f.data_type, expected);
        }
    }
}

/// Columns read from the `follows` table: 1 -> 2 -> 3, plus 1 -> 3.
fn follows_columns() -> Vec<(Vec<Option<u64>>, Vec<Option<u64>>)> {
    vec![(vec![Some(1), Some(2), Some(1)], vec![Some(2), Some(3), Some(3)])]
}

fn bfs_spec(start: u64) -> TraversalSpec {
    TraversalSpec {
        start: vec![NodeId::new(start)],
        max_depth: 3,
        max_nodes: None,
        algorithm: TraversalAlgorithm::Bfs,
        direction: TraversalDirection::Outgoing,
    }
}

#[test]
fn provider_creation() {
    let provider = GraphTableProvider::new(test_ontology());

    assert_eq!(provider.node_labels(), vec!["User"]);
    assert!(!provider.is_materialized());
}

#[test]
fn provider_schema() {
    let schema = GraphTableProvider::edge_list_schema();

    assert_eq!(schema.len(), 3);
    assert_eq!(schema[0].name, "source");
    assert_eq!(schema[2].name, "label");
}

#[test]
fn node_schema_returns_correct_fields() {
    let provider = GraphTableProvider::new(test_ontology());

    let schema = provider.node_schema("User").expect("User schema should exist");
    let names = field_names(&schema);
    assert!(names.contains(&"node_id"));
    assert!(names.contains(&"label"));
    assert!(names.contains(&"name"));
    assert!(names.contains(&"email"));
}

#[test]
fn node_schema_returns_none_for_unknown() {
    let provider = GraphTableProvider::new(test_ontology());

    assert!(provider.node_schema("Unknown").is_none());
}

#[test]
fn edge_schema_returns_correct_fields() {
    let provider = GraphTableProvider::new(test_ontology());

    let schema = provider.edge_schema("FOLLOWS").expect("FOLLOWS schema should exist");
    let names = field_names(&schema);
    assert!(names.contains(&"source_id"));
    assert!(names.contains(&"target_id"));
    assert!(names.contains(&"label"));
    assert!(names.contains(&"since"));
}

#[test]
fn schemas_map_string_ids_to_hashed_uint64() {
    let provider = GraphTableProvider::new(test_ontology_with_id_type(IdType::String));

    let node_schema = provider.node_schema("User").expect("User schema should exist");
    let edge_schema = provider.edge_schema("FOLLOWS").expect("FOLLOWS schema should exist");

    assert_id_fields(&node_schema, ColumnType::UInt64);
    assert_id_fields(&edge_schema, ColumnType::UInt64);
}

#[test]
fn schemas_map_u128_ids_to_fixed_size_binary() {
    let provider = GraphTableProvider::new(test_ontology_with_id_type(IdType::U128));

    let node_schema = provider.node_schema("User").expect("User schema should exist");
    let edge_schema = provider.edge_schema("FOLLOWS").expect("FOLLOWS schema should exist");

    assert_id_fields(&node_schema, ColumnType::FixedSizeBinary16);
    assert_id_fields(&edge_schema, ColumnType::FixedSizeBinary16);
}

#[test]
fn edge_schema_returns_none_for_unknown() {
    let provider = GraphTableProvider::new(test_ontology());

    assert!(provider.edge_schema("UNKNOWN").is_none());
}

#[test]
fn materialize_builds_graph_and_edge_list() {
    let mut provider = GraphTableProvider::new(test_ontology());

    provider.materialize(follows_columns()).unwrap();

    assert!(provider.is_materialized());
    assert_eq!(provider.statistics().edge_count, 3);
    assert!(provider.graph().has_edge(NodeId::new(1), NodeId::new(2)));
    let lists = provider.scan_edge_lists().unwrap();
    assert_eq!(lists.len(), 1);
    assert_eq!(lists[0].sources, vec![1, 2, 1]);
    assert_eq!(lists[0].targets, vec![2, 3, 3]);
    assert_eq!(lists[0].label, "FOLLOWS");
}

#[test]
fn scan_before_materialize_errors() {
    let provider = GraphTableProvider::new(test_ontology());
    let err = provider.scan_edge_lists().unwrap_err();
    assert!(err.message().contains("not materialized"), "got: {}", err.message());
}

#[test]
fn create_traversal_plan_requires_materialization() {
    let provider = GraphTableProvider::new(test_ontology());
    let result = provider.create_traversal_plan(bfs_spec(1));
    assert!(matches!(result, Err(DataFusionError::PlanGenerationFailed { .. })));
}

#[test]
fn create_traversal_plan_executes_bfs() {
    let mut provider = GraphTableProvider::new(test_ontology());
    provider.materialize(follows_columns()).unwrap();

    let plan = provider.create_traversal_plan(bfs_spec(1)).unwrap();
    let (rows, _) = plan.execute_rows(0).unwrap();
    assert_eq!(rows.len(), 3, "BFS from 1 reaches {{1, 2, 3}}");
}

#[test]
fn materialize_refuses_invalid_ontology_and_keeps_state() {
    let mut ontology = test_ontology();
    ontology.edges[0].to_node = "Ghost".to_string();
    let mut provider = GraphTableProvider::new(ontology);
    let err = provider.materialize(follows_columns()).unwrap_err();
    assert!(matches!(err, DataFusionError::Ontology(_)));
    assert!(!provider.is_materialized());
    assert_eq!(provider.statistics().edge_count, 0);
}

#[test]
fn materialize_skips_rows_with_nulls_and_merges_definitions() {
    let mut ontology = test_ontology();
    ontology.edges.push(edge("BLOCKS", "blocks", ("User", "a"), ("User", "b"), &[]));
    let mut provider = GraphTableProvider::new(ontology);
    provider
        .materialize(vec![
            (vec![Some(0), None], vec![Some(1), Some(2)]),
            (vec![Some(1), Some(4)], vec![Some(0), None]),
        ])
        .unwrap();
    let lists = provider.edge_lists();
    assert_eq!(lists[0].sources, vec![0]);
    assert_eq!(lists[1].sources, vec![1]);
    assert_eq!(lists[1].label, "BLOCKS");
    assert_eq!(provider.statistics().edge_count, 2);
    assert!(provider.graph().has_edge(NodeId::new(1), NodeId::new(0)));
}

#[test]
fn materialize_reports_build_failure() {
    let mut provider = GraphTableProvider::new(test_ontology());
    let err = provider.materialize(vec![(vec![Some(0)], vec![Some(1u64 << 33)])]).unwrap_err();
    assert!(matches!(err, DataFusionError::Graph(_)));
    assert!(!provider.is_materialized());
}

#[test]
fn edge_schema_lists_weight_and_types() {
    let mut ontology = test_ontology();
    ontology.edges[0].weight_column = Some("w".to_string());
    let provider = GraphTableProvider::new(ontology);
    let schema = provider.edge_schema("FOLLOWS").unwrap();
    let fields: Vec<(&str, ColumnType, bool)> =
        schema.iter().map(|f| (f.name.as_str(), f.data_type, f.nullable)).collect();
    assert_eq!(
        fields,
        vec![
            ("source_id", ColumnType::UInt64, false),
            ("target_id", ColumnType::UInt64, false),
            ("label", ColumnType::Utf8, false),
            ("weight", ColumnType::Float64, true),
            ("since", ColumnType::Utf8, true),
        ]
    );
    let u32_provider = GraphTableProvider::new(test_ontology_with_id_type(IdType::U32));
    let node_schema = u32_provider.node_schema("User").unwrap();
    assert_eq!(node_schema[0].data_type, ColumnType::UInt32);
    assert_eq!(field_names(&node_schema), vec!["node_id", "label", "name", "email"]);
}

// ---------------------------------------------------------------------
// Ontology-driven registration
// ---------------------------------------------------------------------

fn iam_ontology() -> Ontology {
    Ontology {
        ontology: OntologyMeta {
            name: "iam_graph".to_string(),
            version: "1.0".to_string(),
            description: String::new(),
        },
        settings: OntologySettings::default(),
        nodes: vec![node("Role", "roles", &[]), node("Policy", "policies", &[])],
        edges: vec![
            edge("CAN_ASSUME", "role_assumptions", ("Role", "role_id"), ("Role", "assumed_role_id"), &[]),
            edge("HAS_POLICY", "role_policies", ("Role", "role_id"), ("Policy", "policy_id"), &[]),
        ],
        properties: Vec::new(),
    }
}

#[test]
fn unnamed_ontology_uses_bare_edge_label() {
    let mut ontology = iam_ontology();
    ontology.ontology.name = String::new();
    assert_eq!(graph_name(&ontology, &ontology.edges[0]), "CAN_ASSUME");
}

#[test]
fn registers_one_graph_per_edge_definition() {
    let ontology = iam_ontology();
    let mut catalog = GraphCatalog::new();
    let graphs = [
        Arc::new(CsrGraph::from_edges(&[(0, 1), (1, 2)])),
        Arc::new(CsrGraph::from_edges(&[(0, 10)])),
    ];
    let mut names = Vec::new();
    for (edge, graph) in ontology.edges.iter().zip(graphs.iter()) {
        names.push(register_edge_graph(&mut catalog, &ontology, edge, Arc::clone(graph)));
    }

    assert_eq!(names, vec!["iam_graph.CAN_ASSUME".to_string(), "iam_graph.HAS_POLICY".to_string()]);
    assert_eq!(catalog.names(), names);
    assert_eq!(catalog.get("iam_graph.HAS_POLICY").unwrap().edge_count(), 1);
}

#[test]
fn stats_default() {
    let stats = FusionGraphStats::default();
    assert_eq!(stats.nodes_visited, 0);
    assert_eq!(stats.edges_traversed, 0);
    assert_eq!(stats.execution_time_us, 0);
}
