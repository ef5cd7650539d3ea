use sigma4_engine::matrix::CascadeMatrix;

fn e(from: u32, to: u32, w: f32, lag: u32) -> (u32, u32, u32, u32) {
    (from, to, w.to_bits(), lag)
}

fn weights(m: &CascadeMatrix) -> Vec<f32> {
    m.values.iter().map(|&b| f32::from_bits(b)).collect()
}

#[test]
fn matrix_fields_consistent() {
    let edges = vec![e(0, 1, 0.5, 10), e(1, 0, 0.25, 20)];
    let m = CascadeMatrix::from_edges(2, &edges);
    assert_eq!(m.n, 2);
    assert_eq!(m.row_ptr, vec![0, 1, 2]);
    assert_eq!(m.col_idx, vec![1, 0]);
    assert_eq!(weights(&m), vec![0.5, 0.25]);
    assert_eq!(m.time_lag_us, vec![10, 20]);
}

#[test]
fn from_edges_keeps_both_edges() {
    let edges = vec![e(0, 1, 0.5, 0), e(1, 0, 0.25, 0)];
    let m = CascadeMatrix::from_edges(2, &edges);
    assert_eq!(m.col_idx.len(), 2);
}

#[test]
fn matrix_from_edges_self_loop() {
    let edges = vec![e(0, 0, 1.0, 0)];
    let m = CascadeMatrix::from_edges(2, &edges);
    assert_eq!(m.col_idx[0], 0);
}

#[test]
fn matrix_from_edges_duplicate_edges_weights_add() {
    let edges = vec![e(0, 1, 0.3, 0), e(0, 1, 0.2, 0)];
    let m = CascadeMatrix::from_edges(2, &edges);
    assert_eq!(m.values.len(), 2);
    assert!((f32::from_bits(m.values[0]) - 0.3).abs() < 1e-6);
    assert!((f32::from_bits(m.values[1]) - 0.2).abs() < 1e-6);
}

#[test]
fn matrix_from_edges_zero_matrix() {
    let m = CascadeMatrix::from_edges(0, &[]);
    assert_eq!(m.n, 0);
    assert_eq!(m.row_ptr.len(), 1);
}

#[test]
fn from_edges_groups_rows_in_input_order() {
    let edges = vec![
        e(2, 0, 0.1, 1),
        e(0, 1, 0.5, 2),
        e(2, 1, 0.2, 3),
        e(0, 2, 0.3, 4),
        e(1, 2, 0.8, 5),
    ];
    let m = CascadeMatrix::from_edges(3, &edges);
    assert_eq!(m.row_ptr, vec![0, 2, 3, 5]);
    assert_eq!(m.col_idx, vec![1, 2, 2, 0, 1]);
    assert_eq!(weights(&m), vec![0.5, 0.3, 0.8, 0.1, 0.2]);
    assert_eq!(m.time_lag_us, vec![2, 4, 5, 1, 3]);
}

#[test]
fn from_edges_empty_rows() {
    let m = CascadeMatrix::from_edges(4, &[e(1, 2, 0.5, 0)]);
    assert_eq!(m.row_ptr, vec![0, 0, 1, 1, 1]);
    assert_eq!(m.col_idx, vec![2]);
}
