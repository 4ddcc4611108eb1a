use std::sync::Arc;

use fusiongraph::build_exec::{
    check_build_partitions, enforce_memory_limit, CsrBuildConfig, CsrBuildStream, InputBatch, InputColumn,
};
use fusiongraph::catalog::{resolve_graph_traverse, CallArg, GraphCatalog, ScalarArg};
use fusiongraph::csr::{CsrBuilder, CsrGraph};
use fusiongraph::engine::EngineError;
use fusiongraph::traversal::{TraversalAlgorithm, TraversalDirection, TraversalSpec};
use fusiongraph::traversal_exec::GraphTraversalExec;
use fusiongraph::types::NodeId;

fn u64_column(values: &[u64]) -> InputColumn {
    InputColumn::UInt64(values.iter().map(|&v| Some(v)).collect())
}

fn edge_batch(sources: &[u64], targets: &[u64]) -> InputBatch {
    InputBatch { columns: vec![u64_column(sources), u64_column(targets)], num_rows: sources.len() }
}

fn fields(names: &[&str]) -> Vec<String> {
    names.iter().map(|s| s.to_string()).collect()
}

fn message(e: &EngineError) -> String {
    e.message().to_string()
}

// ---------------------------------------------------------------------
// CSR build operator
// ---------------------------------------------------------------------

#[test]
fn test_csr_builder_exec() {
    let mut stream = CsrBuildStream::new(CsrBuildConfig::default(), fields(&["source", "target"]));
    stream.extract_edges(&edge_batch(&[0, 0, 1, 2], &[1, 2, 2, 3])).unwrap();
    let summary = stream.build_csr().unwrap().summary;
    assert_eq!(summary.node_count, 4);
    assert_eq!(summary.edge_count, 4);
    assert!(stream.is_finished());
}

#[test]
fn test_csr_builder_empty() {
    let mut stream = CsrBuildStream::new(CsrBuildConfig::default(), fields(&["source", "target"]));
    let summary = stream.build_csr().unwrap().summary;
    assert_eq!(summary.node_count, 0);
}

#[test]
fn test_csr_builder_custom_column_names() {
    let config = CsrBuildConfig {
        source_column: "src_id".to_string(),
        target_column: "dst_id".to_string(),
        ..CsrBuildConfig::default()
    };
    let mut stream = CsrBuildStream::new(config, fields(&["src_id", "dst_id"]));
    stream.extract_edges(&edge_batch(&[0, 0, 1, 2], &[1, 2, 2, 3])).unwrap();
    let summary = stream.build_csr().unwrap().summary;
    assert_eq!(summary.node_count, 4);
    assert_eq!(summary.edge_count, 4);
}

#[test]
fn test_csr_builder_missing_source_column_errors() {
    let config = CsrBuildConfig { source_column: "src".to_string(), ..CsrBuildConfig::default() };
    let mut stream = CsrBuildStream::new(config, fields(&["source", "target"]));
    let err = stream.extract_edges(&edge_batch(&[0, 1], &[1, 2])).unwrap_err();
    assert!(message(&err).contains("Source column 'src' not found in input schema"));
}

#[test]
fn test_csr_builder_wrong_column_type_errors() {
    let mut stream = CsrBuildStream::new(CsrBuildConfig::default(), fields(&["source", "target"]));
    let batch = InputBatch { columns: vec![InputColumn::Other, u64_column(&[1, 2, 3])], num_rows: 3 };
    let err = stream.extract_edges(&batch).unwrap_err();
    assert!(message(&err).contains("Source column 'source' must be UInt64"));
}

#[test]
fn test_csr_builder_memory_limit_errors() {
    let config = CsrBuildConfig {
        memory_limit: Some(std::mem::size_of::<(u64, u64)>() * 2),
        ..CsrBuildConfig::default()
    };
    let mut stream = CsrBuildStream::new(config, fields(&["source", "target"]));
    let err = stream.extract_edges(&edge_batch(&[0, 1, 2], &[1, 2, 3])).unwrap_err();
    assert!(message(&err).contains("edge buffer exceeded memory limit"));
    assert_eq!(message(&err), "CSRBuilderExec edge buffer exceeded memory limit (48 bytes > 32 bytes)");
    // The two edges that fit stay buffered.
    assert_eq!(stream.edges(), &[(0, 1), (1, 2)]);
}

#[test]
fn test_csr_builder_rejects_non_zero_output_partition() {
    let err = check_build_partitions(1, 1).unwrap_err();
    assert!(message(&err).contains("CSRBuilderExec produces a single output partition"));
    assert_eq!(
        message(&err),
        "CSRBuilderExec produces a single output partition, but partition 1 was requested"
    );
}

#[test]
fn test_csr_builder_requires_single_input_partition() {
    let err = check_build_partitions(0, 2).unwrap_err();
    assert!(message(&err).contains("CSRBuilderExec requires a single input partition"));
    assert!(check_build_partitions(0, 1).is_ok());
}

#[test]
fn test_datafusion_integration_multi_batch() {
    let config = CsrBuildConfig { shard_size: 64 * 1024 * 1024, ..Default::default() };
    let mut stream = CsrBuildStream::new(config, fields(&["source", "target"]));
    stream.extract_edges(&edge_batch(&[0, 0, 1], &[1, 2, 2])).unwrap();
    stream.extract_edges(&edge_batch(&[2, 3, 3], &[3, 4, 5])).unwrap();
    stream.extract_edges(&edge_batch(&[4, 5], &[5, 0])).unwrap();
    assert!(!stream.is_finished());
    let summary = stream.build_csr().unwrap().summary;
    assert_eq!(summary.node_count, 6, "Expected 6 nodes");
    assert_eq!(summary.edge_count, 8, "Expected 8 edges");
    assert!(stream.is_finished());
    assert!(stream.edges().is_empty());
}

#[test]
fn test_csr_builder_reports_graph_metadata() {
    let mut stream = CsrBuildStream::new(CsrBuildConfig::default(), fields(&["source", "target"]));
    stream.extract_edges(&edge_batch(&[0, 0, 1, 2], &[1, 2, 2, 3])).unwrap();
    let summary = stream.build_csr().unwrap().summary;
    assert_eq!(summary.node_count, 4, "Graph should have 4 nodes (0, 1, 2, 3)");
    assert!(summary.shard_count >= 1, "Should have at least 1 shard");
}

#[test]
fn null_rows_are_skipped() {
    let mut stream = CsrBuildStream::new(CsrBuildConfig::default(), fields(&["source", "target"]));
    let batch = InputBatch {
        columns: vec![
            InputColumn::UInt64(vec![Some(0), None, Some(2), Some(3)]),
            InputColumn::UInt64(vec![Some(1), Some(5), None, Some(4)]),
        ],
        num_rows: 4,
    };
    stream.extract_edges(&batch).unwrap();
    assert_eq!(stream.edges(), &[(0, 1), (3, 4)]);
}

#[test]
fn missing_target_and_wrong_target_type_errors() {
    let mut stream = CsrBuildStream::new(CsrBuildConfig::default(), fields(&["source", "dst"]));
    let err = stream.extract_edges(&edge_batch(&[0], &[1])).unwrap_err();
    assert_eq!(message(&err), "Target column 'target' not found in input schema");

    let mut stream = CsrBuildStream::new(CsrBuildConfig::default(), fields(&["source", "target"]));
    let batch = InputBatch { columns: vec![u64_column(&[0]), InputColumn::Other], num_rows: 1 };
    let err = stream.extract_edges(&batch).unwrap_err();
    assert_eq!(message(&err), "Target column 'target' must be UInt64");
}

#[test]
fn failed_build_reports_graph_error() {
    let mut stream = CsrBuildStream::new(CsrBuildConfig::default(), fields(&["source", "target"]));
    stream.extract_edges(&edge_batch(&[0], &[1u64 << 40])).unwrap();
    let err = stream.build_csr().unwrap_err();
    assert_eq!(
        message(&err),
        "CSR build failed: FG-CSR-E002: Invalid edge: source Node(0) or target Node(1099511627776) out of range"
    );
    assert!(!stream.is_finished());
}

#[test]
fn memory_limit_check_by_itself() {
    assert!(enforce_memory_limit(None, usize::MAX).is_ok());
    assert!(enforce_memory_limit(Some(160), 10).is_ok());
    let err = enforce_memory_limit(Some(159), 10).unwrap_err();
    assert_eq!(message(&err), "CSRBuilderExec edge buffer exceeded memory limit (160 bytes > 159 bytes)");
    let err = enforce_memory_limit(Some(10), usize::MAX).unwrap_err();
    assert_eq!(message(&err), "CSRBuilderExec edge buffer size overflowed usize accounting");
}

// ---------------------------------------------------------------------
// Traversal operator
// ---------------------------------------------------------------------

fn build_test_graph() -> Arc<CsrGraph> {
    // 0 -> 1 -> 2, 0 -> 3
    Arc::new(CsrBuilder::new().with_edges(vec![(0, 1), (1, 2), (0, 3)]).build().unwrap())
}

fn spec(start: Vec<NodeId>, max_depth: u32, max_nodes: Option<usize>) -> TraversalSpec {
    TraversalSpec {
        start,
        max_depth,
        max_nodes,
        algorithm: TraversalAlgorithm::Bfs,
        direction: TraversalDirection::Outgoing,
    }
}

#[test]
fn execute_returns_traversal_results() {
    let exec = GraphTraversalExec::new(build_test_graph(), spec(vec![NodeId::new(0)], 2, None));
    let (node_ids, depths) = exec.execute_rows(0).unwrap();
    assert!(node_ids.len() >= 3);
    assert!(node_ids.contains(&0));
    assert!(node_ids.contains(&1));
    assert_eq!(node_ids, vec![0, 1, 3, 2]);
    assert_eq!(depths, vec![0, 1, 1, 2]);
}

#[test]
fn execute_respects_max_depth() {
    let exec = GraphTraversalExec::new(build_test_graph(), spec(vec![NodeId::new(0)], 1, None));
    let (_, depths) = exec.execute_rows(0).unwrap();
    for depth in depths {
        assert!(depth <= 1);
    }
}

#[test]
fn execute_rejects_non_bfs_algorithm() {
    let mut s = spec(vec![NodeId::new(0)], 2, None);
    s.algorithm = TraversalAlgorithm::Dfs;
    let exec = GraphTraversalExec::new(build_test_graph(), s);
    let err = exec.execute_rows(0).unwrap_err();
    assert!(message(&err).contains("only supports BFS traversal"));
    assert!(matches!(err, EngineError::NotImplemented(_)));
    assert_eq!(message(&err), "GraphTraversalExec only supports BFS traversal, got Dfs");
}

#[test]
fn execute_rejects_non_outgoing_direction() {
    let mut s = spec(vec![NodeId::new(0)], 2, None);
    s.direction = TraversalDirection::Incoming;
    let exec = GraphTraversalExec::new(build_test_graph(), s);
    let err = exec.execute_rows(0).unwrap_err();
    assert!(message(&err).contains("incoming traversal requires the transposed graph"));
    assert!(matches!(err, EngineError::Plan(_)));
}

#[test]
fn execute_enforces_max_nodes() {
    let exec = GraphTraversalExec::new(build_test_graph(), spec(vec![NodeId::new(0)], 3, Some(2)));
    let (node_ids, _) = exec.execute_rows(0).unwrap();
    assert_eq!(node_ids.len(), 2);
}

#[test]
fn display_format() {
    let exec = GraphTraversalExec::new(build_test_graph(), spec(vec![NodeId::new(0), NodeId::new(1)], 3, None));
    let debug_str = format!("{exec:?}");
    assert!(debug_str.contains("GraphTraversalExec"));
}

#[test]
fn incoming_traversal_runs_on_the_transpose() {
    let graph = build_test_graph();
    let reverse = Arc::new(graph.transpose().unwrap());
    let mut s = spec(vec![NodeId::new(2)], 5, None);
    s.direction = TraversalDirection::Incoming;
    let exec = GraphTraversalExec::new(graph, s).with_reverse(reverse);
    assert!(exec.has_reverse());
    let (node_ids, depths) = exec.execute_rows(0).unwrap();
    assert_eq!(node_ids, vec![2, 1, 0]);
    assert_eq!(depths, vec![0, 1, 2]);
}

#[test]
fn outgoing_traversal_with_transpose_matches_plain_bfs() {
    let graph = build_test_graph();
    let reverse = Arc::new(graph.transpose().unwrap());
    let plain = GraphTraversalExec::new(Arc::clone(&graph), spec(vec![NodeId::new(0)], 5, None));
    let hybrid = GraphTraversalExec::new(graph, spec(vec![NodeId::new(0)], 5, None)).with_reverse(reverse);
    let (a_ids, a_depths) = plain.execute_rows(0).unwrap();
    let (b_ids, b_depths) = hybrid.execute_rows(0).unwrap();
    let mut a: Vec<(u64, u32)> = a_ids.into_iter().zip(a_depths).collect();
    let mut b: Vec<(u64, u32)> = b_ids.into_iter().zip(b_depths).collect();
    a.sort();
    b.sort();
    assert_eq!(a, b);
}

#[test]
fn bidirectional_and_partition_errors() {
    let mut s = spec(vec![NodeId::new(0)], 2, None);
    s.direction = TraversalDirection::Both;
    let exec = GraphTraversalExec::new(build_test_graph(), s);
    let err = exec.execute_rows(0).unwrap_err();
    assert_eq!(message(&err), "GraphTraversalExec does not support bidirectional traversal yet");
    let err = exec.execute_rows(3).unwrap_err();
    assert_eq!(message(&err), "GraphTraversalExec only supports partition 0, got 3");
}

#[test]
fn zero_node_cap_gives_no_rows() {
    let exec = GraphTraversalExec::new(build_test_graph(), spec(vec![NodeId::new(0)], 3, Some(0)));
    let (ids, depths) = exec.execute_rows(0).unwrap();
    assert!(ids.is_empty() && depths.is_empty());
}

// ---------------------------------------------------------------------
// Graph catalog and the graph_traverse table function
// ---------------------------------------------------------------------

fn test_graph() -> Arc<CsrGraph> {
    // 0 -> 1 -> 2 -> 3, plus 1 -> 3.
    Arc::new(CsrGraph::from_edges(&[(0, 1), (1, 2), (2, 3), (1, 3)]))
}

fn setup() -> GraphCatalog {
    let mut catalog = GraphCatalog::new();
    catalog.register("g".to_string(), test_graph());
    catalog
}

fn str_arg(s: &str) -> CallArg {
    CallArg { value: ScalarArg::Utf8(s.to_string()), rendering: format!("Some(Literal(Utf8(\"{s}\")))") }
}

fn int_arg(v: i64) -> CallArg {
    CallArg { value: ScalarArg::Int64(v), rendering: format!("Some(Literal(Int64({v})))") }
}

fn traverse(catalog: &GraphCatalog, args: &[CallArg]) -> Result<(Vec<u64>, Vec<u32>), EngineError> {
    let table = resolve_graph_traverse(catalog, args)?;
    GraphTraversalExec::new(table.graph, table.spec).execute_rows(0)
}

#[test]
fn catalog_register_get_deregister() {
    let mut catalog = GraphCatalog::new();
    assert!(catalog.get("g").is_none());

    assert!(catalog.register("g".to_string(), test_graph()).is_none());
    assert!(catalog.get("g").is_some());
    assert_eq!(catalog.names(), vec!["g".to_string()]);

    assert!(catalog.register("g".to_string(), test_graph()).is_some());

    assert!(catalog.deregister("g").is_some());
    assert!(catalog.get("g").is_none());
    assert!(catalog.names().is_empty());
}

#[test]
fn catalog_names_are_sorted() {
    let mut catalog = GraphCatalog::new();
    for name in ["zeta", "alpha", "Beta", "alpha2", "é", "mid"] {
        catalog.register(name.to_string(), test_graph());
    }
    let mut expected: Vec<String> =
        ["zeta", "alpha", "Beta", "alpha2", "é", "mid"].iter().map(|s| s.to_string()).collect();
    expected.sort();
    assert_eq!(catalog.names(), expected);
    catalog.deregister("alpha");
    expected.retain(|n| n != "alpha");
    assert_eq!(catalog.names(), expected);
}

#[test]
fn sql_traversal_returns_expected_nodes() {
    let catalog = setup();
    let (mut ids, _) = traverse(&catalog, &[str_arg("g"), int_arg(0), int_arg(2)]).unwrap();
    ids.sort();
    assert_eq!(ids, vec![0, 1, 2, 3]);
}

#[test]
fn sql_max_nodes_argument_caps_traversal() {
    let catalog = setup();
    let (ids, _) = traverse(&catalog, &[str_arg("g"), int_arg(0), int_arg(3), int_arg(2)]).unwrap();
    assert_eq!(ids.len(), 2);
}

#[test]
fn unknown_graph_lists_available_names() {
    let catalog = setup();
    let err = resolve_graph_traverse(&catalog, &[str_arg("missing"), int_arg(0), int_arg(2)]).unwrap_err();
    let err = message(&err);
    assert!(err.contains("no graph named 'missing'"), "got: {err}");
    assert!(err.contains("\"g\""), "should list available graphs: {err}");
    assert_eq!(err, "graph_traverse: no graph named 'missing' is registered; available graphs: [\"g\"]");
}

#[test]
fn wrong_argument_count_errors() {
    let catalog = setup();
    let err = resolve_graph_traverse(&catalog, &[str_arg("g")]).unwrap_err();
    assert!(message(&err).contains("expects 3 or 4 arguments"), "got: {}", message(&err));
    assert_eq!(
        message(&err),
        "graph_traverse expects 3 or 4 arguments (graph_name, start_node, max_hops [, max_nodes]), got 1"
    );
}

#[test]
fn non_string_graph_name_errors() {
    let catalog = setup();
    let err = resolve_graph_traverse(&catalog, &[int_arg(42), int_arg(0), int_arg(2)]).unwrap_err();
    assert!(message(&err).contains("must be a string literal"), "got: {}", message(&err));
    assert_eq!(
        message(&err),
        "graph_traverse: argument 1 (graph_name) must be a string literal, got Some(Literal(Int64(42)))"
    );
}

#[test]
fn negative_start_node_errors() {
    let catalog = setup();
    let err = resolve_graph_traverse(&catalog, &[str_arg("g"), int_arg(-1), int_arg(2)]).unwrap_err();
    assert!(message(&err).contains("must be a non-negative integer literal"), "got: {}", message(&err));
    assert_eq!(
        message(&err),
        "graph_traverse: argument 2 (start_node) must be a non-negative integer literal, got -1"
    );
}

#[test]
fn hop_limit_must_fit_u32() {
    let catalog = setup();
    let big = CallArg { value: ScalarArg::UInt64(1 << 40), rendering: String::new() };
    let err = resolve_graph_traverse(&catalog, &[str_arg("g"), int_arg(0), big]).unwrap_err();
    assert_eq!(message(&err), "graph_traverse: max_hops exceeds u32");
}

#[test]
fn resolved_table_describes_the_traversal() {
    let catalog = setup();
    let args = [
        CallArg { value: ScalarArg::LargeUtf8("g".to_string()), rendering: String::new() },
        CallArg { value: ScalarArg::UInt32(2), rendering: String::new() },
        CallArg { value: ScalarArg::Int32(4), rendering: String::new() },
        CallArg { value: ScalarArg::UInt64(9), rendering: String::new() },
    ];
    let table = resolve_graph_traverse(&catalog, &args).unwrap();
    assert_eq!(table.spec.start, vec![NodeId::new(2)]);
    assert_eq!(table.spec.max_depth, 4);
    assert_eq!(table.spec.max_nodes, Some(9));
    assert_eq!(table.spec.algorithm, TraversalAlgorithm::Bfs);
    assert_eq!(table.spec.direction, TraversalDirection::Outgoing);
    assert_eq!(table.graph.edge_count(), 4);
}

#[test]
fn other_arguments_show_their_rendering() {
    let catalog = setup();
    let other = CallArg { value: ScalarArg::Other, rendering: "Some(Column(x))".to_string() };
    let err = resolve_graph_traverse(&catalog, &[str_arg("g"), int_arg(0), other]).unwrap_err();
    assert_eq!(
        message(&err),
        "graph_traverse: argument 3 (max_hops) must be a non-negative integer literal, got Some(Column(x))"
    );
}

#[test]
fn default_build_config() {
    let config = CsrBuildConfig::default();
    assert_eq!(config.shard_size, 64 * 1024 * 1024);
    assert!(config.build_parallelism >= 1);
    assert_eq!(config.memory_limit, None);
    assert_eq!(config.source_column, "source");
    assert_eq!(config.target_column, "target");
}
