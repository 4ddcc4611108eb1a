//! Concrete instances of the library's laws.

use std::sync::Arc;

use fusiongraph::bfs::bfs;
use fusiongraph::catalog::GraphCatalog;
use fusiongraph::circuit_breaker::{CircuitBreaker, CircuitBreakerConfig, CircuitState};
use fusiongraph::csr::CsrGraph;
use fusiongraph::dictionary::NodeDictionary;
use fusiongraph::dobfs::bfs_direction_optimized;
use fusiongraph::error::GraphError;
use fusiongraph::types::{EdgeData, NodeId};

#[test]
fn law_double_transpose_keeps_edges() {
    let mut graph = CsrGraph::from_edges(&[(0, 1), (1, 2), (2, 0), (2, 3)]);
    graph.delta_mut().insert(NodeId(3), NodeId(4), EdgeData::default());
    graph.delta_mut().delete(NodeId(2), NodeId(0));
    let twice = graph.transpose().unwrap().transpose().unwrap();
    for a in 0..6u64 {
        for b in 0..6u64 {
            assert_eq!(twice.has_edge(NodeId(a), NodeId(b)), graph.has_edge(NodeId(a), NodeId(b)), "{a}->{b}");
        }
    }
}

#[test]
fn law_compaction_preserves_edges() {
    let mut graph = CsrGraph::from_edges(&[(0, 1), (1, 2), (2, 3)]);
    graph.delta_mut().insert(NodeId(3), NodeId(9), EdgeData::default());
    graph.delta_mut().delete(NodeId(1), NodeId(2));
    let mut before = Vec::new();
    for a in 0..10u64 {
        for b in 0..10u64 {
            before.push(graph.has_edge(NodeId(a), NodeId(b)));
        }
    }
    let compacted = graph.compact().unwrap();
    let mut after = Vec::new();
    for a in 0..10u64 {
        for b in 0..10u64 {
            after.push(compacted.has_edge(NodeId(a), NodeId(b)));
        }
    }
    assert_eq!(before, after);
}

#[test]
fn law_direction_optimized_levels_match_bfs() {
    let graph = CsrGraph::from_edges(&[(0, 1), (0, 2), (1, 3), (2, 3), (3, 4), (4, 0)]);
    let reverse = graph.transpose().unwrap();
    let a = bfs(&graph, NodeId(0), 10);
    let b = bfs_direction_optimized(&graph, &reverse, NodeId(0), 10).unwrap();
    assert_eq!(a.max_depth_reached, b.max_depth_reached);
    for node in &a.visited {
        assert_eq!(a.depth_of(*node), b.depth_of(*node));
    }
    assert_eq!(a.visited.len(), b.visited.len());
}

#[test]
fn law_interning_roundtrip() {
    let mut dict = NodeDictionary::new();
    let id = dict.get_or_insert("k");
    assert_eq!(dict.get_or_insert("k"), id);
    assert_eq!(dict.key_of(id), Some("k"));
    assert_eq!(dict.id_of("k"), Some(id));
    assert_ne!(dict.get_or_insert("other"), id);
}

#[test]
fn law_breaker_opens_at_threshold_and_open_failures_keep_timer() {
    let config = CircuitBreakerConfig { failure_threshold: 3, ..Default::default() };
    let mut cb = CircuitBreaker::new(config);
    cb.record_failure_at(10);
    cb.record_failure_at(20);
    assert_eq!(cb.state(), CircuitState::Closed);
    cb.record_failure_at(30);
    assert_eq!(cb.state(), CircuitState::Open);
    cb.record_failure_at(40);
    assert_eq!(cb.last_failure_time(), 30);
    assert!(cb.check_at(35).is_err());
}

#[test]
fn law_register_then_deregister() {
    let mut catalog = GraphCatalog::new();
    catalog.register("other".to_string(), Arc::new(CsrGraph::from_edges(&[(0, 1)])));
    catalog.register("g".to_string(), Arc::new(CsrGraph::from_edges(&[(0, 1), (1, 2)])));
    assert_eq!(catalog.get("g").unwrap().edge_count(), 2);
    catalog.deregister("g");
    assert!(catalog.get("g").is_none());
    assert_eq!(catalog.get("other").unwrap().edge_count(), 1);
}

#[test]
fn law_error_message_starts_with_code() {
    let errors = vec![
        GraphError::NodeNotFound { node_id: NodeId(7) },
        GraphError::OutOfMemory { requested: 10, available: 5 },
        GraphError::ShardCorruption { shard_id: 3 },
        GraphError::InvalidEdge { from: NodeId(1), to: NodeId(2) },
        GraphError::UnsupportedGraphSize { reason: "too big".to_string() },
        GraphError::DeltaOverflow { count: 9, threshold: 8 },
        GraphError::TraversalTimeout { duration_ms: 5, nodes_visited: 2 },
        GraphError::InvalidTraversal { reason: "bad".to_string() },
        GraphError::CircuitOpen,
    ];
    for (i, e) in errors.iter().enumerate() {
        assert!(e.to_string().starts_with(&format!("{}: ", e.code())));
        for f in &errors[i + 1..] {
            assert_ne!(e.code(), f.code());
        }
    }
}

#[test]
fn law_depth_groups_cover_every_visited_node() {
    let graph = CsrGraph::from_edges(&[(0, 1), (0, 2), (1, 3), (2, 3), (3, 4)]);
    let r = bfs(&graph, NodeId(0), 10);
    let t = fusiongraph::traversal::TraversalResult {
        visited: r.visited.clone(),
        depths: r.depths.clone(),
        max_depth_reached: r.max_depth_reached,
        edges_traversed: r.edges_examined,
    };
    let total: usize = (0..=t.max_depth_reached).map(|d| t.nodes_at_depth(d).len()).sum();
    assert_eq!(total, t.node_count());
}

#[test]
fn law_direction_optimized_agrees_with_bfs() {
    let graph = CsrGraph::from_edges(&[(0, 1), (0, 2), (1, 3), (2, 3), (3, 4), (4, 0)]);
    let reverse = graph.transpose().unwrap();
    let b = bfs(&graph, NodeId(0), 10);
    let r = bfs_direction_optimized(&graph, &reverse, NodeId(0), 10).unwrap();
    assert_eq!(r.max_depth_reached, b.max_depth_reached);
    assert_eq!(r.node_count(), b.node_count());
    for n in &b.visited {
        assert_eq!(r.depth_of(*n), b.depth_of(*n));
    }
}

#[test]
fn law_build_succeeds_within_the_u32_range() {
    let g = fusiongraph::csr::CsrBuilder::new().with_edges(vec![(2, 3), (0, 1), (1, 2)]).build().unwrap();
    assert_eq!(g.node_count(), 4);
    assert_eq!(g.edge_count(), 3);
}

#[test]
fn law_build_degree_is_source_count() {
    let edges = vec![(2, 3), (0, 1), (1, 2), (0, 3)];
    let g = fusiongraph::csr::CsrBuilder::new().with_edges(edges.clone()).build().unwrap();
    assert_eq!(g.node_count(), 4);
    for v in 0..6u64 {
        let count = edges.iter().filter(|e| e.0 == v).count();
        assert_eq!(g.out_degree(NodeId(v)), count);
    }
}

#[test]
fn law_bfs_is_deterministic_without_pending_edits() {
    let graph = CsrGraph::from_edges(&[(0, 2), (0, 1), (1, 3), (2, 3), (3, 4)]);
    let a = fusiongraph::bfs::bfs_bounded(&graph, &[NodeId(0)], 10, Some(4));
    let b = fusiongraph::bfs::bfs_bounded(&graph, &[NodeId(0)], 10, Some(4));
    assert_eq!(a.visited, b.visited);
    assert_eq!(a.depths, b.depths);
}

#[test]
fn law_count_ones_counts_set_positions() {
    let mut bs = fusiongraph::bitset::AtomicBitset::new(130);
    for i in [0usize, 5, 64, 129, 5] {
        bs.set(i);
    }
    let set = (0..bs.capacity()).filter(|&i| bs.test(i)).count();
    assert_eq!(bs.count_ones(), set);
    assert!(bs.count_ones() <= bs.capacity());
}
