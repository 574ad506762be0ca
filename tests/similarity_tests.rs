use item_recs::{build_graph_from_features, FeatureMatrix, FEATURE_ONE};

fn matrix(rows: Vec<Vec<u32>>) -> FeatureMatrix {
    let ncols = rows.first().map(|r| r.len()).unwrap_or(0);
    FeatureMatrix { rows, ncols, vocabularies: Vec::new() }
}

#[test]
fn test_build_graph() {
    let one = FEATURE_ONE;
    let features = matrix(vec![vec![one, 0], vec![one, 0], vec![0, one]]);
    let graph = build_graph_from_features(&features, 1);
    assert_eq!(graph[0][0], 1);
    assert_eq!(graph[1][0], 0);
    let neighbor_of_2 = graph[2][0];
    assert!(neighbor_of_2 == 0 || neighbor_of_2 == 1);
}

#[test]
fn tie_goes_to_lower_row_index() {
    let one = FEATURE_ONE;
    let features = matrix(vec![vec![one, 0], vec![one, 0], vec![0, one]]);
    let graph = build_graph_from_features(&features, 1);
    assert_eq!(graph[2], vec![0]);
}

#[test]
fn k_larger_than_catalog_gives_all_other_rows() {
    let features = matrix(vec![vec![3, 1], vec![1, 3], vec![2, 2], vec![0, 5]]);
    let graph = build_graph_from_features(&features, 10);
    assert_eq!(graph.len(), 4);
    for (i, list) in graph.iter().enumerate() {
        assert_eq!(list.len(), 3);
        assert!(!list.contains(&i));
    }
}

#[test]
fn neighbors_ranked_by_cosine() {
    // against row 0 = (4, 0): row 1 = (3, 1) has cos 0.949, row 2 = (1, 1) 0.707, row 3 = (0, 2) 0
    let features = matrix(vec![vec![4, 0], vec![3, 1], vec![1, 1], vec![0, 2]]);
    let graph = build_graph_from_features(&features, 3);
    assert_eq!(graph[0], vec![1, 2, 3]);
    // against row 3 = (0, 2): row 2 has cos 0.707, row 1 0.316, row 0 0
    assert_eq!(graph[3], vec![2, 1, 0]);
}

#[test]
fn scale_does_not_change_ranking() {
    // rows 1 and 2 point the same way as row 0; row 3 does not
    let features = matrix(vec![vec![1, 2], vec![2, 4], vec![5, 10], vec![2, 1]]);
    let graph = build_graph_from_features(&features, 2);
    assert_eq!(graph[0], vec![1, 2]);
}

#[test]
fn zero_row_has_similarity_zero() {
    let features = matrix(vec![vec![0, 0], vec![1, 0], vec![1, 1]]);
    let graph = build_graph_from_features(&features, 2);
    assert_eq!(graph[0], vec![1, 2]);
    assert_eq!(graph[1], vec![2, 0]);
}

#[test]
fn k_zero_and_single_row() {
    let features = matrix(vec![vec![1, 0], vec![0, 1]]);
    let graph = build_graph_from_features(&features, 0);
    assert_eq!(graph, vec![Vec::<usize>::new(), Vec::new()]);
    let single = matrix(vec![vec![1, 1]]);
    assert_eq!(build_graph_from_features(&single, 5), vec![Vec::<usize>::new()]);
}

#[test]
fn repeated_builds_are_identical() {
    let features = matrix(vec![vec![3, 1, 0], vec![1, 3, 0], vec![2, 2, 1], vec![0, 5, 1]]);
    let a = build_graph_from_features(&features, 2);
    let b = build_graph_from_features(&features, 2);
    assert_eq!(a, b);
}
