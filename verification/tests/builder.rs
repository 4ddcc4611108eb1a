use fusiongraph::csr::CsrBuilder;
use fusiongraph::error::GraphError;
use fusiongraph::types::NodeId;

#[test]
fn build_empty() {
    let graph = CsrBuilder::new().build().unwrap();
    assert_eq!(graph.node_count(), 0);
    assert_eq!(graph.edge_count(), 0);
}

#[test]
fn build_simple() {
    let graph = CsrBuilder::new().with_edges(vec![(0, 1), (0, 2), (1, 2)]).build().unwrap();

    assert_eq!(graph.node_count(), 3);
    assert_eq!(graph.edge_count(), 3);
}

#[test]
fn build_weighted() {
    let graph = CsrBuilder::new()
        .with_weighted_edges(vec![
            (0, 1, 1.0f32.to_bits()),
            (0, 2, 2.0f32.to_bits()),
            (1, 2, 0.5f32.to_bits()),
        ])
        .build()
        .unwrap();

    assert_eq!(graph.edge_count(), 3);
}

#[test]
fn build_unsorted_edges() {
    let graph = CsrBuilder::new().with_edges(vec![(2, 3), (0, 1), (1, 2)]).build().unwrap();

    assert_eq!(graph.node_count(), 4);
    assert_eq!(graph.edge_count(), 3);
}

#[test]
fn build_rejects_node_ids_beyond_u32() {
    let err = CsrBuilder::new()
        .with_edges(vec![(0, u64::from(u32::MAX) + 1)])
        .build()
        .unwrap_err();

    assert!(matches!(
        err,
        GraphError::InvalidEdge { from, to }
            if from == NodeId::new(0) && to == NodeId::new(u64::from(u32::MAX) + 1)
    ));
}

#[test]
fn shard_partitioning_creates_multiple_shards_for_small_shard_size() {
    let edges: Vec<(u64, u64)> = (0..20).map(|i| (i, i + 1)).collect();

    let graph = CsrBuilder::new().with_shard_size(32).with_edges(edges).build().unwrap();

    assert!(graph.shard_count() > 1, "Expected multiple shards, got {}", graph.shard_count());
}

#[test]
fn global_to_shard_roundtrip_single_shard() {
    let graph = CsrBuilder::new().with_edges(vec![(0, 1), (1, 2), (2, 3)]).build().unwrap();

    for node_id in 0..4 {
        let node = NodeId::new(node_id);
        if let Some((shard_idx, offset)) = graph.global_to_shard(node) {
            let recovered = graph.shard_to_global(shard_idx, offset);
            assert_eq!(recovered, Some(node), "Roundtrip failed for node {}", node_id);
        }
    }
}

#[test]
fn global_to_shard_roundtrip_multiple_shards() {
    let edges: Vec<(u64, u64)> = (0..50).map(|i| (i, i + 1)).collect();

    let graph = CsrBuilder::new().with_shard_size(64).with_edges(edges).build().unwrap();

    for node_id in 0..51 {
        let node = NodeId::new(node_id);
        let result = graph.global_to_shard(node);
        assert!(result.is_some(), "global_to_shard failed for node {}", node_id);

        let (shard_idx, offset) = result.unwrap();
        let recovered = graph.shard_to_global(shard_idx, offset);
        assert_eq!(
            recovered,
            Some(node),
            "Roundtrip failed for node {} (shard={}, offset={})",
            node_id,
            shard_idx,
            offset
        );
    }
}

#[test]
fn cross_shard_neighbor_access() {
    let mut edges: Vec<(u64, u64)> = vec![(0, 10), (0, 20), (0, 30), (0, 40)];
    for i in 1..50 {
        edges.push((i, i + 1));
    }

    let graph = CsrBuilder::new().with_shard_size(64).with_edges(edges).build().unwrap();

    let neighbors: Vec<_> = graph.neighbors(NodeId::new(0));

    assert!(neighbors.contains(&NodeId::new(10)), "Missing cross-shard neighbor 10");
    assert!(neighbors.contains(&NodeId::new(20)), "Missing cross-shard neighbor 20");
    assert!(neighbors.contains(&NodeId::new(30)), "Missing cross-shard neighbor 30");
    assert!(neighbors.contains(&NodeId::new(40)), "Missing cross-shard neighbor 40");
}

#[test]
fn shard_boundary_nodes_handled_correctly() {
    let edges: Vec<(u64, u64)> = (0..100).map(|i| (i, i + 1)).collect();

    let graph = CsrBuilder::new().with_shard_size(128).with_edges(edges).build().unwrap();

    let shard_count = graph.shard_count();
    assert!(shard_count >= 1);

    let mut covered_nodes = 0usize;
    for shard_idx in 0..shard_count {
        if let Some(shard) = graph.shards().get(shard_idx) {
            let range = shard.node_range();
            assert_eq!(range.start, covered_nodes, "Gap in shard coverage at shard {}", shard_idx);
            covered_nodes = range.end;
        }
    }

    assert_eq!(covered_nodes, graph.node_count(), "Not all nodes covered by shards");
}

#[test]
fn shard_partitioning_preserves_edge_count() {
    let edges: Vec<(u64, u64)> = (0..100).flat_map(|i| [(i, i + 1), (i, i + 2)]).collect();

    let graph = CsrBuilder::new().with_shard_size(64).with_edges(edges.clone()).build().unwrap();

    let total_shard_edges: usize = (0..graph.shard_count())
        .filter_map(|idx| graph.shards().get(idx))
        .map(|s| s.edge_count())
        .sum();

    assert_eq!(total_shard_edges, edges.len(), "Edge count mismatch after sharding");
}

#[test]
fn global_to_shard_returns_none_for_invalid_node() {
    let graph = CsrBuilder::new().with_edges(vec![(0, 1), (1, 2)]).build().unwrap();

    assert!(graph.global_to_shard(NodeId::new(100)).is_none());
}

#[test]
fn shard_to_global_returns_none_for_invalid_shard() {
    let graph = CsrBuilder::new().with_edges(vec![(0, 1), (1, 2)]).build().unwrap();

    assert!(graph.shard_to_global(999, 0).is_none());
}

#[test]
fn shard_to_global_returns_none_for_invalid_offset() {
    let graph = CsrBuilder::new().with_edges(vec![(0, 1), (1, 2)]).build().unwrap();
    let shard = &graph.shards()[0];

    assert!(graph.shard_to_global(0, shard.node_count()).is_none());
}

#[test]
fn weighted_graph_shard_partitioning() {
    let edges: Vec<(u64, u64, u32)> = (0_u16..50)
        .map(|i| (u64::from(i), u64::from(i + 1), (f32::from(i) * 0.1).to_bits()))
        .collect();

    let graph = CsrBuilder::new().with_shard_size(128).with_weighted_edges(edges).build().unwrap();

    for node_id in 0..51 {
        let node = NodeId::new(node_id);
        if let Some((shard_idx, offset)) = graph.global_to_shard(node) {
            let recovered = graph.shard_to_global(shard_idx, offset);
            assert_eq!(recovered, Some(node));
        }
    }
}

#[test]
fn weighted_build_keeps_weights_per_edge() {
    let graph = CsrBuilder::new()
        .with_weighted_edges(vec![(1, 0, 3.5f32.to_bits()), (0, 1, 1.5f32.to_bits())])
        .build()
        .unwrap();
    let shard = &graph.shards()[0];
    let (start, end) = shard.neighbor_range(0);
    assert_eq!(end - start, 1);
    assert_eq!(shard.col_index(start), Some(1));
    assert_eq!(shard.weight(start).map(f32::from_bits), Some(1.5));
    let (start1, _) = shard.neighbor_range(1);
    assert_eq!(shard.weight(start1).map(f32::from_bits), Some(3.5));
}

#[test]
fn build_keeps_input_order_of_neighbors() {
    let graph = CsrBuilder::new().with_edges(vec![(0, 3), (0, 1), (0, 2)]).build().unwrap();
    assert_eq!(graph.base_neighbor_slice(NodeId::new(0)), &[3, 1, 2]);
}
