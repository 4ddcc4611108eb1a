use fusiongraph::types::{EdgeId, GraphStatistics, NodeId};

#[test]
fn node_id_roundtrip() {
    let id = NodeId::new(42);
    assert_eq!(id.as_u64(), 42);
    assert_eq!(NodeId::from(42u64), id);
}

#[test]
fn node_id_display() {
    let id = NodeId::new(123);
    assert_eq!(id.to_string(), "Node(123)");
}

#[test]
fn edge_id_display_and_roundtrip() {
    let id = EdgeId::new(7);
    assert_eq!(id.as_u64(), 7);
    assert_eq!(id.to_string(), "Edge(7)");
    assert_eq!(NodeId::from(9u32), NodeId::new(9));
}

#[test]
fn statistics_default_is_zero() {
    let s = GraphStatistics::default();
    assert_eq!(s.node_count, 0);
    assert_eq!(s.edge_count, 0);
    assert_eq!(s.shard_count, 0);
    assert_eq!(s.memory_bytes, 0);
    assert_eq!(s.delta_entries, 0);
}
