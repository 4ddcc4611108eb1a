use fusiongraph::bfs::{bfs, bfs_bounded, bfs_bounded_with_backend, bfs_multi};
use fusiongraph::csr::CsrGraph;
use fusiongraph::simd::ScalarBackend;
use fusiongraph::types::{EdgeData, NodeId};

fn make_test_graph() -> CsrGraph {
    // 0 -> 1 -> 3, 0 -> 2 -> 4, 1 -> 4
    CsrGraph::from_edges(&[(0, 1), (0, 2), (1, 3), (1, 4), (2, 4)])
}

#[test]
fn bfs_from_root() {
    let graph = make_test_graph();
    let result = bfs(&graph, NodeId(0), 10);

    assert_eq!(result.node_count(), 5);
    assert!(result.contains(NodeId(0)));
    assert!(result.contains(NodeId(4)));

    assert_eq!(result.depth_of(NodeId(0)), Some(0));
    assert_eq!(result.depth_of(NodeId(1)), Some(1));
    assert_eq!(result.depth_of(NodeId(2)), Some(1));
    assert_eq!(result.depth_of(NodeId(3)), Some(2));
    assert_eq!(result.depth_of(NodeId(4)), Some(2));
}

#[test]
fn bfs_respects_max_depth() {
    let graph = make_test_graph();
    let result = bfs(&graph, NodeId(0), 1);

    assert_eq!(result.node_count(), 3);
    assert!(result.contains(NodeId(0)));
    assert!(result.contains(NodeId(1)));
    assert!(result.contains(NodeId(2)));
    assert!(!result.contains(NodeId(3)));
    assert!(!result.contains(NodeId(4)));
}

#[test]
fn bfs_depth_zero() {
    let graph = make_test_graph();
    let result = bfs(&graph, NodeId(0), 0);

    assert_eq!(result.node_count(), 1);
    assert!(result.contains(NodeId(0)));
}

#[test]
fn bfs_nonexistent_start() {
    let graph = make_test_graph();
    let result = bfs(&graph, NodeId(999), 10);

    assert_eq!(result.node_count(), 0);
}

#[test]
fn bfs_levels() {
    let graph = make_test_graph();
    let result = bfs(&graph, NodeId(0), 10);

    assert_eq!(result.levels.len(), 3);
    assert_eq!(result.levels[0], vec![NodeId(0)]);
    assert!(result.levels[1].contains(&NodeId(1)));
    assert!(result.levels[1].contains(&NodeId(2)));
}

#[test]
fn bfs_multi_starts() {
    let graph = CsrGraph::from_edges(&[(0, 2), (1, 2), (2, 3)]);
    let result = bfs_multi(&graph, &[NodeId(0), NodeId(1)], 10);

    assert!(result.contains(NodeId(0)));
    assert!(result.contains(NodeId(1)));
    assert!(result.contains(NodeId(2)));
    assert!(result.contains(NodeId(3)));
    assert_eq!(result.depth_of(NodeId(2)), Some(1));
}

#[test]
fn bfs_bounded_caps_visited_nodes() {
    let graph = make_test_graph();
    let result = bfs_bounded(&graph, &[NodeId(0)], 10, Some(2));
    assert_eq!(result.node_count(), 2);
}

#[test]
fn bfs_slow_path_applies_delta_insertions_and_tombstones() {
    let mut graph = make_test_graph();
    graph.delta_mut().insert(NodeId(4), NodeId(5), EdgeData::default());
    graph.delta_mut().delete(NodeId(0), NodeId(2));

    let result = bfs(&graph, NodeId(0), 10);
    assert!(result.contains(NodeId(5)), "delta insertion traversed");
    assert!(!result.contains(NodeId(2)), "tombstoned edge not traversed");
    assert_eq!(result.depth_of(NodeId(5)), Some(3));
}

#[test]
fn fast_path_matches_slow_path_semantics() {
    let base_edges = [(0, 1), (0, 2), (1, 3), (1, 4), (2, 4)];
    let fast = CsrGraph::from_edges(&base_edges);

    let mut slow = CsrGraph::from_edges(&base_edges[..4]);
    slow.delta_mut().insert(NodeId(2), NodeId(4), EdgeData::default());

    let fast_result = bfs(&fast, NodeId(0), 10);
    let slow_result = bfs(&slow, NodeId(0), 10);

    assert_eq!(fast_result.node_count(), slow_result.node_count());
    for node in &fast_result.visited {
        assert_eq!(
            fast_result.depth_of(*node),
            slow_result.depth_of(*node),
            "depth mismatch for {node:?}"
        );
    }
}

#[test]
fn explicit_backend_matches_default() {
    let graph = make_test_graph();
    let default_result = bfs(&graph, NodeId(0), 10);
    let scalar_result = bfs_bounded_with_backend(&graph, &[NodeId(0)], 10, None, &ScalarBackend);

    assert_eq!(default_result.visited, scalar_result.visited);
    assert_eq!(default_result.depths, scalar_result.depths);
    assert_eq!(default_result.edges_examined, scalar_result.edges_examined);
}

#[test]
fn bfs_order_and_edges_examined() {
    let graph = make_test_graph();
    let result = bfs(&graph, NodeId(0), 10);
    assert_eq!(result.visited, vec![NodeId(0), NodeId(1), NodeId(2), NodeId(3), NodeId(4)]);
    assert_eq!(result.depths, vec![0, 1, 1, 2, 2]);
    assert_eq!(result.max_depth_reached, 2);
    // Every visited node below the depth limit is expanded: 2 + 2 + 1 + 0 + 0.
    assert_eq!(result.edges_examined, 5);
}

#[test]
fn bfs_multi_skips_duplicate_and_missing_starts() {
    let graph = CsrGraph::from_edges(&[(0, 1)]);
    let result = bfs_multi(&graph, &[NodeId(1), NodeId(1), NodeId(77), NodeId(0)], 5);
    assert_eq!(result.visited, vec![NodeId(1), NodeId(0)]);
    assert_eq!(result.depths, vec![0, 0]);
}

#[test]
fn bfs_bounded_zero_cap_is_empty() {
    let graph = make_test_graph();
    let result = bfs_bounded(&graph, &[NodeId(0)], 10, Some(0));
    assert_eq!(result.node_count(), 0);
}

#[test]
fn capped_bfs_completes_earlier_levels() {
    // 0 -> {1, 2, 3}, 1 -> 4, 2 -> 5: a cap of 5 keeps the whole first level.
    let graph = CsrGraph::from_edges(&[(0, 1), (0, 2), (0, 3), (1, 4), (2, 5)]);
    let result = bfs_bounded(&graph, &[NodeId(0)], 10, Some(5));
    assert_eq!(result.node_count(), 5);
    for n in [0, 1, 2, 3] {
        assert!(result.contains(NodeId(n)));
    }
    assert_eq!(result.depths, vec![0, 1, 1, 1, 2]);
}

#[test]
fn depth_of_answers_when_the_first_match_has_a_depth() {
    let r = fusiongraph::bfs::BfsResult {
        visited: vec![NodeId(4), NodeId(7), NodeId(9)],
        depths: vec![0, 1],
        levels: Vec::new(),
        max_depth_reached: 1,
        edges_examined: 0,
    };
    assert_eq!(r.depth_of(NodeId(7)), Some(1));
    assert_eq!(r.depth_of(NodeId(5)), None);
}

#[test]
fn bfs_visits_neighbours_in_storage_order() {
    let graph = CsrGraph::from_edges(&[(0, 2), (0, 1), (2, 3), (1, 4)]);
    let r = bfs(&graph, NodeId(0), 10);
    assert_eq!(r.visited, vec![NodeId(0), NodeId(2), NodeId(1), NodeId(3), NodeId(4)]);
    assert_eq!(r.depths, vec![0, 1, 1, 2, 2]);
    assert_eq!(r.levels, vec![vec![NodeId(0)], vec![NodeId(2), NodeId(1)], vec![NodeId(3), NodeId(4)]]);
}

#[test]
fn capped_bfs_keeps_first_discovered_nodes() {
    let graph = CsrGraph::from_edges(&[(0, 1), (0, 2), (1, 3), (1, 4), (2, 4)]);
    let full = bfs_bounded(&graph, &[NodeId(0)], 10, None);
    for k in 0..=6usize {
        let r = bfs_bounded(&graph, &[NodeId(0)], 10, Some(k));
        let m = k.min(full.visited.len());
        assert_eq!(r.visited, full.visited[..m].to_vec());
        assert_eq!(r.depths, full.depths[..m].to_vec());
    }
}

#[test]
fn capped_edges_examined_fast_path_counts_whole_slices() {
    let graph = CsrGraph::from_edges(&[(0, 1), (0, 2), (0, 3)]);
    let r = bfs_bounded(&graph, &[NodeId(0)], 5, Some(2));
    assert_eq!(r.visited, vec![NodeId(0), NodeId(1)]);
    assert_eq!(r.edges_examined, 3);
}

#[test]
fn capped_edges_examined_slow_path_stops_at_full_queue() {
    let mut graph = CsrGraph::from_edges(&[(0, 1), (0, 2), (0, 3)]);
    graph.delta_mut().insert(NodeId(0), NodeId(4), EdgeData::default());
    let r = bfs_bounded(&graph, &[NodeId(0)], 5, Some(2));
    assert_eq!(r.visited, vec![NodeId(0), NodeId(1)]);
    assert_eq!(r.edges_examined, 2);
    let full = bfs_bounded(&graph, &[NodeId(0)], 5, None);
    assert_eq!(&full.visited[..4], &[NodeId(0), NodeId(1), NodeId(2), NodeId(3)]);
    assert_eq!(full.visited[4], NodeId(4));
}
