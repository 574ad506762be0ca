use item_recs::{recommend, Graph};

#[test]
fn test_neighbors() {
    let adj = vec![vec![1, 2], vec![0], vec![0]];
    let g = Graph::new(adj);
    assert_eq!(g.neighbors(0), Some(&vec![1, 2]));
}

#[test]
fn test_recommend() {
    let adj = vec![vec![1, 2], vec![0], vec![0]];
    let g = Graph::new(adj);
    assert_eq!(recommend(&g, 0, 1), vec![1]);
    assert_eq!(recommend(&g, 1, 5), vec![0]);
}

#[test]
fn neighbors_past_last_row_is_none() {
    let g = Graph::new(vec![vec![1], vec![0]]);
    assert_eq!(g.neighbors(2), None);
    assert_eq!(g.neighbors(1), Some(&vec![0]));
}

#[test]
fn recommend_past_last_row_is_empty() {
    let g = Graph::new(vec![vec![1], vec![0]]);
    assert_eq!(recommend(&g, 7, 3), Vec::<usize>::new());
}

#[test]
fn recommend_zero_k_is_empty() {
    let g = Graph::new(vec![vec![1, 2], vec![0, 2], vec![0, 1]]);
    assert_eq!(recommend(&g, 2, 0), Vec::<usize>::new());
    assert_eq!(recommend(&g, 2, 2), vec![0, 1]);
}
