use fusiongraph::simd::{
    backend_name, backend_name_for, dense_index_to_node_id, node_id_to_dense_index, select_backend,
    select_backend_for, Avx2Backend, Avx512Backend, NeonBackend, ScalarBackend, SimdBackend,
};
use fusiongraph::types::NodeId;

fn make_visited(bits: &[u32], capacity_words: usize) -> Vec<u64> {
    let mut words = vec![0u64; capacity_words];
    for &b in bits {
        words[(b / 64) as usize] |= 1u64 << (b % 64);
    }
    words
}

fn pseudo_random_indices(count: usize, max: u32, mut seed: u64) -> Vec<u32> {
    (0..count)
        .map(|_| {
            seed ^= seed << 13;
            seed ^= seed >> 7;
            seed ^= seed << 17;
            (seed % u64::from(max)) as u32
        })
        .collect()
}

#[test]
fn scalar_filters_visited() {
    let visited = make_visited(&[1, 64, 130], 3);
    let result = ScalarBackend.filter_unvisited(&[0, 1, 63, 64, 65, 130, 191], &visited);
    assert_eq!(result, vec![0, 63, 65, 191]);
}

#[test]
fn scalar_out_of_range_indices_are_dropped() {
    let visited = make_visited(&[], 1);
    let result = ScalarBackend.filter_unvisited(&[10, 64, 200], &visited);
    assert_eq!(result, vec![10]);
}

#[test]
fn set_visited_batch_roundtrip() {
    let mut visited = vec![0u64; 4];
    ScalarBackend.set_visited_batch(&[3, 64, 200], &mut visited);
    let result = ScalarBackend.filter_unvisited(&[3, 4, 64, 200, 201], &visited);
    assert_eq!(result, vec![4, 201]);
}

#[test]
fn platform_backend_matches_scalar_reference() {
    let backend = select_backend();
    for size in [0usize, 1, 3, 4, 5, 8, 9, 100, 1000, 1003] {
        let neighbors = pseudo_random_indices(size, 4096, 0xF00D + size as u64);
        let visited_bits = pseudo_random_indices(size / 2 + 1, 4096, 0xBEEF + size as u64);
        let visited = make_visited(&visited_bits, 64);

        let expected = ScalarBackend.filter_unvisited(&neighbors, &visited);
        let actual = backend.filter_unvisited(&neighbors, &visited);
        assert_eq!(actual, expected, "backend {} diverged from scalar at size {size}", backend.name());
    }
}

#[test]
fn platform_backend_handles_out_of_range() {
    let backend = select_backend();
    let visited = make_visited(&[1], 1);
    let expected = ScalarBackend.filter_unvisited(&[0, 1, 2, 100, 4000, 63, 5, 6], &visited);
    let actual = backend.filter_unvisited(&[0, 1, 2, 100, 4000, 63, 5, 6], &visited);
    assert_eq!(actual, expected);
}

#[test]
fn backend_selection_returns_valid_backend() {
    let backend = select_backend();
    assert!(!backend.name().is_empty());
    assert!(backend.batch_size() >= 1);
    assert_eq!(backend_name(), backend.name());
}

#[test]
fn node_id_dense_index_roundtrip() {
    assert_eq!(node_id_to_dense_index(NodeId::new(42)), Some(42));
    assert_eq!(node_id_to_dense_index(NodeId::new(u64::MAX)), None);
    assert_eq!(dense_index_to_node_id(7), NodeId::new(7));
}

#[test]
fn every_backend_matches_scalar_reference() {
    let backends: Vec<Box<dyn SimdBackend>> =
        vec![Box::new(NeonBackend), Box::new(Avx2Backend), Box::new(Avx512Backend)];
    for backend in &backends {
        for size in [0usize, 1, 3, 4, 5, 7, 8, 9, 17, 100, 1003] {
            let neighbors = pseudo_random_indices(size, 5000, 0xA11 + size as u64);
            let visited_bits = pseudo_random_indices(size / 2 + 1, 4096, 0xB22 + size as u64);
            let visited = make_visited(&visited_bits, 64);
            let expected = ScalarBackend.filter_unvisited(&neighbors, &visited);
            assert_eq!(backend.filter_unvisited(&neighbors, &visited), expected, "{}", backend.name());
        }
    }
}

#[test]
fn backend_choice_follows_cpu_features() {
    assert_eq!(select_backend_for(true, true).name(), "avx512");
    assert_eq!(select_backend_for(false, true).name(), "avx2");
    assert_eq!(select_backend_for(false, false).name(), "scalar");
    assert_eq!(backend_name_for(true, false), "avx512");
    assert_eq!(backend_name_for(false, true), "avx2");
    assert_eq!(backend_name_for(false, false), "scalar");
    assert_eq!(NeonBackend.batch_size(), 4);
    assert_eq!(Avx2Backend.batch_size(), 8);
    assert_eq!(Avx512Backend.batch_size(), 16);
}

#[test]
fn filter_into_clears_previous_output() {
    let visited = make_visited(&[2], 1);
    let mut out = vec![99, 98];
    ScalarBackend.filter_unvisited_into(&[1, 2, 3], &visited, &mut out);
    assert_eq!(out, vec![1, 3]);
}

#[test]
fn backend_names_and_batch_sizes() {
    assert_eq!(ScalarBackend.name(), "scalar");
    assert_eq!(ScalarBackend.batch_size(), 1);
    assert_eq!(NeonBackend.name(), "neon");
    assert_eq!(NeonBackend.batch_size(), 4);
    assert_eq!(Avx2Backend.name(), "avx2");
    assert_eq!(Avx2Backend.batch_size(), 8);
    assert_eq!(Avx512Backend.name(), "avx512");
    assert_eq!(Avx512Backend.batch_size(), 16);
    assert_eq!(select_backend_for(true, true).name(), "avx512");
    assert_eq!(select_backend_for(false, true).batch_size(), 8);
    assert_eq!(select_backend_for(false, false).name(), "scalar");
    assert_eq!(select_backend().name(), "scalar");
}

#[test]
fn filter_avx2_appends_without_clearing() {
    let mut out = vec![99u32];
    Avx2Backend::filter_avx2(&[0, 1, 2, 100, 4000, 63, 5, 6], &[2], &mut out);
    assert_eq!(out, vec![99, 0, 2, 63, 5, 6]);
}
