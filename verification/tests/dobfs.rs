use std::collections::HashSet;

use fusiongraph::bfs::bfs;
use fusiongraph::csr::CsrGraph;
use fusiongraph::dobfs::bfs_direction_optimized;
use fusiongraph::error::GraphError;
use fusiongraph::gen::{rmat, uniform};
use fusiongraph::types::{EdgeData, NodeId};

fn assert_equivalent(graph: &CsrGraph, start: NodeId, max_depth: u32) {
    let reverse = graph.transpose().unwrap();
    let reference = bfs(graph, start, max_depth);
    let hybrid = bfs_direction_optimized(graph, &reverse, start, max_depth).unwrap();

    assert_eq!(hybrid.node_count(), reference.node_count(), "node count");
    assert_eq!(hybrid.max_depth_reached, reference.max_depth_reached, "max depth");
    assert_eq!(hybrid.levels.len(), reference.levels.len(), "level count");
    for (i, (h, r)) in hybrid.levels.iter().zip(&reference.levels).enumerate() {
        let h: HashSet<_> = h.iter().copied().collect();
        let r: HashSet<_> = r.iter().copied().collect();
        assert_eq!(h, r, "level {i} membership");
    }
    for node in &reference.visited {
        assert_eq!(hybrid.depth_of(*node), reference.depth_of(*node), "depth of {node:?}");
    }
}

#[test]
fn matches_bfs_on_small_topologies() {
    let chain = CsrGraph::from_edges(&[(0, 1), (1, 2), (2, 3)]);
    assert_equivalent(&chain, NodeId::new(0), 10);

    let star = CsrGraph::from_edges(&(1..64).map(|i| (0, i)).collect::<Vec<_>>());
    assert_equivalent(&star, NodeId::new(0), 10);

    let diamond = CsrGraph::from_edges(&[(0, 1), (0, 2), (1, 3), (2, 3), (3, 4)]);
    assert_equivalent(&diamond, NodeId::new(0), 10);
}

#[test]
fn matches_bfs_on_uniform_graph() {
    let graph = CsrGraph::from_edges(&uniform(2_000, 6, 0xACE));
    assert_equivalent(&graph, NodeId::new(0), 10);
}

#[test]
fn matches_bfs_on_rmat_hub() {
    let graph = CsrGraph::from_edges(&rmat(12, 8, 0xACE));
    assert_equivalent(&graph, NodeId::new(0), 10);
}

#[test]
fn respects_max_depth() {
    let graph = CsrGraph::from_edges(&uniform(500, 4, 7));
    assert_equivalent(&graph, NodeId::new(0), 2);
}

#[test]
fn nonexistent_start_is_empty() {
    let graph = CsrGraph::from_edges(&[(0, 1)]);
    let reverse = graph.transpose().unwrap();
    let result = bfs_direction_optimized(&graph, &reverse, NodeId::new(99), 5).unwrap();
    assert_eq!(result.node_count(), 0);
}

#[test]
fn forward_delta_falls_back_to_merged_bfs() {
    let mut graph = CsrGraph::from_edges(&[(0, 1), (1, 2)]);
    let reverse = graph.transpose().unwrap();
    graph.delta_mut().insert(NodeId::new(2), NodeId::new(3), EdgeData::default());

    let result = bfs_direction_optimized(&graph, &reverse, NodeId::new(0), 10).unwrap();
    assert!(result.contains(NodeId::new(3)), "delta insertion traversed");
}

#[test]
fn mismatched_reverse_is_rejected() {
    let graph = CsrGraph::from_edges(&[(0, 1), (1, 2)]);
    let wrong = CsrGraph::from_edges(&[(0, 1)]);
    let err = bfs_direction_optimized(&graph, &wrong, NodeId::new(0), 5).unwrap_err();
    assert!(matches!(err, GraphError::InvalidTraversal { .. }));
    assert!(err.to_string().contains("FG-TRV-E002"));
}

#[test]
fn reverse_with_delta_is_rejected() {
    let graph = CsrGraph::from_edges(&[(0, 1), (1, 2)]);
    let mut reverse = graph.transpose().unwrap();
    reverse.delta_mut().insert(NodeId::new(5), NodeId::new(6), EdgeData::default());
    let err = bfs_direction_optimized(&graph, &reverse, NodeId::new(0), 5).unwrap_err();
    assert!(matches!(err, GraphError::InvalidTraversal { .. }));
}

#[test]
fn mismatch_message_names_both_counts() {
    let graph = CsrGraph::from_edges(&[(0, 1), (1, 2)]);
    let wrong = CsrGraph::from_edges(&[(0, 1)]);
    let err = bfs_direction_optimized(&graph, &wrong, NodeId::new(0), 5).unwrap_err();
    match err {
        GraphError::InvalidTraversal { reason } => {
            assert_eq!(reason, "reverse graph is not the transpose of forward: 3/2 nodes, 2/1 edges");
        }
        other => panic!("unexpected error {other:?}"),
    }
}

#[test]
fn bottom_up_level_comes_in_ascending_order() {
    let graph = fusiongraph::csr::CsrGraph::from_edges(&[(0, 3), (0, 1), (0, 2)]);
    let reverse = graph.transpose().unwrap();
    let r = fusiongraph::dobfs::bfs_direction_optimized(&graph, &reverse, NodeId(0), 5).unwrap();
    assert_eq!(r.levels, vec![vec![NodeId(0)], vec![NodeId(1), NodeId(2), NodeId(3)]]);
    assert_eq!(r.visited, vec![NodeId(0), NodeId(1), NodeId(2), NodeId(3)]);
    assert_eq!(r.edges_examined, 3);
    assert_eq!(r.max_depth_reached, 1);
}
