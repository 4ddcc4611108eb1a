use std::hash::Hasher;

use fusiongraph::csr::CsrShard;

fn make_test_shard() -> CsrShard {
    // Graph: 0 -> [1, 2], 1 -> [2], 2 -> []
    CsrShard::new(0, 0..3, vec![0u32, 2, 3, 3], vec![1u32, 2, 2], None)
}

#[test]
fn shard_basics() {
    let shard = make_test_shard();
    assert_eq!(shard.id(), 0);
    assert_eq!(shard.node_count(), 3);
    assert_eq!(shard.edge_count(), 3);
}

#[test]
fn shard_contains() {
    let shard = make_test_shard();
    assert!(shard.contains(0));
    assert!(shard.contains(2));
    assert!(!shard.contains(3));
}

#[test]
fn shard_out_degree() {
    let shard = make_test_shard();
    assert_eq!(shard.out_degree(0), 2);
    assert_eq!(shard.out_degree(1), 1);
    assert_eq!(shard.out_degree(2), 0);
}

#[test]
fn shard_neighbor_range() {
    let shard = make_test_shard();
    assert_eq!(shard.neighbor_range(0), (0, 2));
    assert_eq!(shard.neighbor_range(1), (2, 3));
    assert_eq!(shard.neighbor_range(2), (3, 3));
}

#[test]
fn shard_column_and_weight_access() {
    let shard = CsrShard::new(
        3,
        10..12,
        vec![0u32, 1, 2],
        vec![11u32, 10],
        Some(vec![0.25f32.to_bits(), 4.0f32.to_bits()]),
    );
    assert_eq!(shard.id(), 3);
    assert_eq!(shard.node_range(), 10..12);
    assert!(shard.contains(11));
    assert!(!shard.contains(9));
    assert!(shard.has_weights());
    assert_eq!(shard.col_index(1), Some(10));
    assert_eq!(shard.col_index(2), None);
    assert_eq!(shard.weight(0).map(f32::from_bits), Some(0.25));
    assert_eq!(shard.weight(5), None);
    assert_eq!(shard.neighbor_slice(1), &[10]);
    assert_eq!(shard.neighbor_weight_slice(0).unwrap().len(), 1);
    assert!(shard.memory_usage() > 0);
}

#[test]
fn shard_out_of_range_offsets_are_empty() {
    let shard = make_test_shard();
    assert_eq!(shard.out_degree(7), 0);
    assert_eq!(shard.neighbor_range(7), (0, 0));
}

#[test]
fn shard_checksum_consistent() {
    let shard = make_test_shard();
    let c1 = shard.checksum();
    let c2 = shard.checksum();
    assert_eq!(c1, c2);
}

#[test]
fn shard_checksum_tracks_topology() {
    let a = make_test_shard();
    let b = CsrShard::new(0, 0..3, vec![0u32, 2, 3, 3], vec![1u32, 2, 0], None);
    let c = CsrShard::new(1, 0..3, vec![0u32, 2, 3, 3], vec![1u32, 2, 2], None);
    assert_ne!(a.checksum(), b.checksum());
    assert_ne!(a.checksum(), c.checksum());
}

#[test]
fn shard_checksum_matches_std_hasher() {
    let shard = make_test_shard();
    let mut h = std::collections::hash_map::DefaultHasher::new();
    h.write(&0u32.to_le_bytes());
    h.write(&0u64.to_le_bytes());
    h.write(&3u64.to_le_bytes());
    for p in [0u32, 2, 3, 3] {
        h.write(&p.to_le_bytes());
    }
    for c in [1u32, 2, 2] {
        h.write(&c.to_le_bytes());
    }
    assert_eq!(shard.checksum(), h.finish());
}
