use fusiongraph::delta::DeltaLayer;
use fusiongraph::types::{EdgeData, NodeId};

#[test]
fn insert_and_query() {
    let mut delta = DeltaLayer::new();
    delta.insert(NodeId(0), NodeId(1), EdgeData::default());

    assert!(delta.has_insertion(NodeId(0), NodeId(1)));
    assert!(!delta.has_insertion(NodeId(1), NodeId(0)));
    assert_eq!(delta.insertion_count(), 1);
}

#[test]
fn delete_creates_tombstone() {
    let mut delta = DeltaLayer::new();
    delta.delete(NodeId(0), NodeId(1));

    assert!(delta.is_deleted(NodeId(0), NodeId(1)));
    assert!(!delta.is_deleted(NodeId(1), NodeId(0)));
    assert_eq!(delta.deletion_count(), 1);
}

#[test]
fn insert_removes_tombstone() {
    let mut delta = DeltaLayer::new();
    delta.delete(NodeId(0), NodeId(1));
    assert!(delta.is_deleted(NodeId(0), NodeId(1)));

    delta.insert(NodeId(0), NodeId(1), EdgeData::default());
    assert!(!delta.is_deleted(NodeId(0), NodeId(1)));
    assert!(delta.has_insertion(NodeId(0), NodeId(1)));
}

#[test]
fn delete_removes_insertion() {
    let mut delta = DeltaLayer::new();
    delta.insert(NodeId(0), NodeId(1), EdgeData::default());
    assert!(delta.has_insertion(NodeId(0), NodeId(1)));

    delta.delete(NodeId(0), NodeId(1));
    assert!(!delta.has_insertion(NodeId(0), NodeId(1)));
    assert!(delta.is_deleted(NodeId(0), NodeId(1)));
}

#[test]
fn delta_neighbors_iteration() {
    let mut delta = DeltaLayer::new();
    delta.insert(NodeId(0), NodeId(1), EdgeData::default());
    delta.insert(NodeId(0), NodeId(2), EdgeData::default());
    delta.insert(NodeId(1), NodeId(2), EdgeData::default());

    let neighbors: Vec<_> = delta.neighbors(NodeId(0));
    assert_eq!(neighbors.len(), 2);
    assert!(neighbors.contains(&NodeId(1)));
    assert!(neighbors.contains(&NodeId(2)));
}

#[test]
fn counts_per_source_and_clear() {
    let mut delta = DeltaLayer::new();
    delta.insert(NodeId(0), NodeId(1), EdgeData::default());
    delta.insert(NodeId(0), NodeId(2), EdgeData::default());
    delta.insert(NodeId(3), NodeId(2), EdgeData::default());
    delta.delete(NodeId(0), NodeId(5));
    assert_eq!(delta.insertion_count_for(NodeId(0)), 2);
    assert_eq!(delta.insertion_count_for(NodeId(3)), 1);
    assert_eq!(delta.deletion_count_for(NodeId(0)), 1);
    assert_eq!(delta.deletion_count_for(NodeId(3)), 0);
    assert_eq!(delta.len(), 4);
    assert!(!delta.is_empty());

    delta.clear();
    assert!(delta.is_empty());
    assert_eq!(delta.len(), 0);
}

#[test]
fn drains_empty_the_layer() {
    let mut delta = DeltaLayer::new();
    delta.insert(NodeId(0), NodeId(1), EdgeData { weight: Some(2.0f32.to_bits()), label: None });
    delta.delete(NodeId(4), NodeId(5));

    let inserted = delta.drain_insertions();
    assert_eq!(inserted.len(), 1);
    assert_eq!(inserted[0].0, (NodeId(0), NodeId(1)));
    assert_eq!(inserted[0].1.weight.map(f32::from_bits), Some(2.0));
    assert_eq!(delta.insertion_count(), 0);

    let deleted = delta.drain_deletions();
    assert_eq!(deleted, vec![(NodeId(4), NodeId(5))]);
    assert!(delta.is_empty());
}

#[test]
fn memory_usage_grows_with_entries() {
    let mut delta = DeltaLayer::new();
    let empty = delta.memory_usage();
    delta.insert(NodeId(0), NodeId(1), EdgeData::default());
    let one = delta.memory_usage();
    delta.delete(NodeId(2), NodeId(3));
    let two = delta.memory_usage();
    assert!(empty < one && one < two);
}

#[test]
fn default_layer_is_empty() {
    let delta = DeltaLayer::default();
    assert!(delta.is_empty());
    assert_eq!(delta.insertion_count(), 0);
    assert_eq!(delta.deletion_count(), 0);
}
