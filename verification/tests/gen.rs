use fusiongraph::gen::{rmat, uniform};

#[test]
fn uniform_shape() {
    let edges = uniform(100, 4, 42);
    assert_eq!(edges.len(), 400);
    assert!(edges.iter().all(|&(s, t)| s < 100 && t < 100));
}

#[test]
fn uniform_is_deterministic() {
    assert_eq!(uniform(50, 3, 7), uniform(50, 3, 7));
    assert_ne!(uniform(50, 3, 7), uniform(50, 3, 8));
}

#[test]
fn rmat_shape() {
    let edges = rmat(10, 8, 42);
    assert_eq!(edges.len(), 8 << 10);
    assert!(edges.iter().all(|&(s, t)| s < 1024 && t < 1024));
}

#[test]
fn rmat_is_skewed() {
    let edges = rmat(12, 8, 42);
    let mut degrees = vec![0u32; 1 << 12];
    for &(s, _) in &edges {
        degrees[usize::try_from(s).unwrap()] += 1;
    }
    let max = degrees.iter().copied().max().unwrap();
    assert!(max > 32, "expected skew, max degree was {max}");
}

#[test]
fn rmat_is_deterministic() {
    assert_eq!(rmat(8, 4, 1), rmat(8, 4, 1));
}

#[test]
fn uniform_first_edges_follow_xorshift() {
    // One step of xorshift64 from seed 1: 1 ^ (1 << 13) = 8193; then
    // 8193 ^ (8193 >> 7) = 8257; then 8257 ^ (8257 << 17) = 1082269761.
    let edges = uniform(10, 1, 1);
    assert_eq!(edges[0], (0, 1082269761 % 10));
}

#[test]
fn uniform_with_no_nodes_is_empty() {
    assert!(uniform(0, 5, 3).is_empty());
    assert!(rmat(3, 0, 3).is_empty());
}
