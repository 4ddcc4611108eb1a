use fusiongraph::bfs::bfs;
use fusiongraph::csr::{CsrBuilder, CsrGraph};
use fusiongraph::types::{EdgeData, NodeId};

#[test]
fn empty_graph() {
    let graph = CsrGraph::empty();
    assert_eq!(graph.node_count(), 0);
    assert_eq!(graph.edge_count(), 0);
    assert!(!graph.contains(NodeId::new(0)));
}

#[test]
fn from_edges() {
    let graph = CsrGraph::from_edges(&[(0, 1), (0, 2), (1, 2)]);
    assert!(graph.node_count() >= 3);
    assert_eq!(graph.edge_count(), 3);
    assert!(graph.contains(NodeId::new(0)));
    assert!(graph.has_edge(NodeId::new(0), NodeId::new(1)));
    assert!(graph.has_edge(NodeId::new(0), NodeId::new(2)));
    assert!(!graph.has_edge(NodeId::new(2), NodeId::new(0)));
}

#[test]
fn csr_neighbors_iteration() {
    let graph = CsrGraph::from_edges(&[(0, 1), (0, 2), (0, 3)]);
    assert_eq!(graph.neighbors(NodeId::new(0)).len(), 3);
}

#[test]
fn shard_indexing_roundtrip() {
    let graph = CsrGraph::from_edges(&[(0, 1), (1, 2), (2, 3)]);
    let node = NodeId::new(1);
    if let Some((shard_idx, offset)) = graph.global_to_shard(node) {
        let recovered = graph.shard_to_global(shard_idx, offset);
        assert_eq!(recovered, Some(node));
    }
}

#[test]
fn neighbors_deduplicate_delta_edges_against_base() {
    let mut graph = CsrGraph::from_edges(&[(0, 1), (0, 2)]);
    graph.delta_mut().insert(NodeId::new(0), NodeId::new(2), EdgeData::default());
    graph.delta_mut().insert(NodeId::new(0), NodeId::new(3), EdgeData::default());

    let neighbors: Vec<_> = graph.neighbors(NodeId::new(0));

    assert_eq!(neighbors, vec![NodeId::new(1), NodeId::new(2), NodeId::new(3)]);
}

#[test]
fn out_degree_ignores_tombstones_for_non_base_edges() {
    let mut graph = CsrGraph::from_edges(&[(0, 1), (0, 2)]);
    graph.delta_mut().delete(NodeId::new(0), NodeId::new(99));

    assert_eq!(graph.out_degree(NodeId::new(0)), 2);
}

#[test]
fn out_degree_does_not_double_count_delta_duplicates() {
    let mut graph = CsrGraph::from_edges(&[(0, 1)]);
    graph.delta_mut().insert(NodeId::new(0), NodeId::new(1), EdgeData::default());

    assert_eq!(graph.out_degree(NodeId::new(0)), 1);
}

fn dirty_graph() -> CsrGraph {
    // Base: 0 -> 1 -> 2 -> 3. Delta: insert 3 -> 4, delete 1 -> 2.
    let mut graph = CsrGraph::from_edges(&[(0, 1), (1, 2), (2, 3)]);
    graph.delta_mut().insert(NodeId::new(3), NodeId::new(4), EdgeData::default());
    graph.delta_mut().delete(NodeId::new(1), NodeId::new(2));
    graph
}

#[test]
fn compact_materializes_delta_and_empties_it() {
    let mut graph = dirty_graph();
    let compacted = graph.compact().unwrap();

    assert!(compacted.delta().is_empty(), "new graph has empty delta");
    assert!(compacted.has_edge(NodeId::new(3), NodeId::new(4)));
    assert!(!compacted.has_edge(NodeId::new(1), NodeId::new(2)));
    assert_eq!(compacted.edge_count(), 3); // 0->1, 2->3, 3->4
}

#[test]
fn compact_preserves_traversal_semantics() {
    let mut graph = dirty_graph();
    let before = bfs(&graph, NodeId::new(0), 10);
    let compacted = graph.compact().unwrap();
    let after = bfs(&compacted, NodeId::new(0), 10);

    assert_eq!(before.visited, after.visited);
    assert_eq!(before.depths, after.depths);
}

#[test]
fn compact_skips_delta_duplicates_of_base_edges() {
    let mut graph = CsrGraph::from_edges(&[(0, 1)]);
    graph.delta_mut().insert(NodeId::new(0), NodeId::new(1), EdgeData::default());

    let compacted = graph.compact().unwrap();
    assert_eq!(compacted.edge_count(), 1, "no parallel edge introduced");
}

#[test]
fn compact_preserves_weights() {
    let mut graph = CsrBuilder::new()
        .with_weighted_edges(vec![(0u64, 1u64, 2.5f32.to_bits()), (1, 2, 0.5f32.to_bits())])
        .build()
        .unwrap();
    graph.delta_mut().insert(
        NodeId::new(2),
        NodeId::new(3),
        EdgeData { weight: Some(9.0f32.to_bits()), label: None },
    );

    let compacted = graph.compact().unwrap();
    assert_eq!(compacted.edge_count(), 3);
    // Weight of the base edge 0 -> 1 survives compaction.
    let (shard_idx, offset) = compacted.global_to_shard(NodeId::new(0)).unwrap();
    let shard = &compacted.shards()[shard_idx];
    let (start, _) = shard.neighbor_range(offset);
    assert_eq!(shard.weight(start).map(f32::from_bits), Some(2.5));
}

#[test]
fn transpose_reverses_edges() {
    let graph = CsrGraph::from_edges(&[(0, 1), (0, 2), (1, 2)]);
    let rev = graph.transpose().unwrap();

    assert_eq!(rev.edge_count(), 3);
    assert!(rev.has_edge(NodeId::new(1), NodeId::new(0)));
    assert!(rev.has_edge(NodeId::new(2), NodeId::new(0)));
    assert!(rev.has_edge(NodeId::new(2), NodeId::new(1)));
    assert!(!rev.has_edge(NodeId::new(0), NodeId::new(1)));
}

#[test]
fn transpose_applies_delta_mutations() {
    let graph = dirty_graph(); // base 0->1->2->3, +3->4, -1->2
    let rev = graph.transpose().unwrap();

    assert!(rev.has_edge(NodeId::new(4), NodeId::new(3)), "insertion");
    assert!(!rev.has_edge(NodeId::new(2), NodeId::new(1)), "tombstone");
    assert!(rev.has_edge(NodeId::new(1), NodeId::new(0)));
}

#[test]
fn transpose_enables_incoming_traversal() {
    // Who can reach node 3? In 0 -> 1 -> 2 -> 3: everyone.
    let graph = CsrGraph::from_edges(&[(0, 1), (1, 2), (2, 3)]);
    let rev = graph.transpose().unwrap();
    let result = bfs(&rev, NodeId::new(3), 10);

    assert_eq!(result.node_count(), 4);
    assert_eq!(result.depth_of(NodeId::new(0)), Some(3));
}

#[test]
fn double_transpose_is_identity_topology() {
    let edges = [(0u64, 1u64), (0, 2), (1, 3), (2, 3), (3, 4)];
    let graph = CsrGraph::from_edges(&edges);
    let round_trip = graph.transpose().unwrap().transpose().unwrap();

    assert_eq!(round_trip.edge_count(), edges.len());
    for &(f, t) in &edges {
        assert!(round_trip.has_edge(NodeId::new(f), NodeId::new(t)));
    }
}

#[test]
fn compact_drains_the_source_delta() {
    let mut graph = dirty_graph();
    assert_eq!(graph.delta().len(), 2);
    let _ = graph.compact().unwrap();
    assert!(graph.delta().is_empty());
    // The base layer of the source graph is untouched.
    assert_eq!(graph.edge_count(), 3);
}

#[test]
fn statistics_and_memory_usage() {
    let mut graph = CsrGraph::from_edges(&[(0, 1), (1, 2)]);
    let before = graph.memory_usage();
    graph.delta_mut().insert(NodeId::new(2), NodeId::new(0), EdgeData::default());
    let stats = graph.statistics();
    assert_eq!(stats.node_count, 3);
    assert_eq!(stats.edge_count, 2);
    assert_eq!(stats.shard_count, 1);
    assert_eq!(stats.delta_entries, 1);
    assert_eq!(stats.memory_bytes, graph.memory_usage());
    assert!(graph.memory_usage() > before);
    assert!(graph.has_edge(NodeId::new(2), NodeId::new(0)));
    assert_eq!(graph.out_degree(NodeId::new(2)), 1);
}

#[test]
fn base_neighbor_slice_ignores_delta() {
    let mut graph = CsrGraph::from_edges(&[(0, 1), (0, 2)]);
    graph.delta_mut().delete(NodeId::new(0), NodeId::new(1));
    assert_eq!(graph.base_neighbor_slice(NodeId::new(0)), &[1, 2]);
    assert_eq!(graph.neighbors(NodeId::new(0)), vec![NodeId::new(2)]);
    assert!(graph.base_neighbor_slice(NodeId::new(50)).is_empty());
}

#[test]
fn shard_for_finds_the_owning_shard() {
    let graph = CsrBuilder::new()
        .with_shard_size(64)
        .with_edges((0..50).map(|i| (i, i + 1)).collect())
        .build()
        .unwrap();
    for node in 0..51u64 {
        let shard = graph.shard_for(NodeId::new(node)).unwrap();
        assert!(shard.contains(node as usize));
    }
    assert!(graph.shard_for(NodeId::new(51)).is_none());
}
