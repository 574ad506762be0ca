use item_recs::{build_feature_matrix, vocabulary, FeatureError, FEATURE_ONE};

fn strings(v: &[&str]) -> Vec<String> {
    v.iter().map(|s| s.to_string()).collect()
}

#[test]
fn test_preprocess() {
    let numeric = vec![vec![1, 2], vec![10, 20]];
    let categorical = vec![strings(&["A", "B"]), strings(&["Small", "Medium"])];
    let mat = build_feature_matrix(2, &numeric, &categorical).unwrap();
    assert_eq!(mat.nrows(), 2);
    assert_eq!(mat.ncols(), 6);
}

#[test]
fn two_row_catalog_layout() {
    let numeric = vec![vec![1_000_000, 2_000_000]];
    let categorical = vec![strings(&["A", "B"])];
    let mat = build_feature_matrix(2, &numeric, &categorical).unwrap();
    assert_eq!(mat.ncols(), 3);
    assert_eq!(mat.rows, vec![vec![0, FEATURE_ONE, 0], vec![FEATURE_ONE, 0, FEATURE_ONE]]);
    assert_eq!(mat.vocabularies, vec![strings(&["A", "B"])]);
}

#[test]
fn categories_follow_sorted_vocabulary() {
    let categorical = vec![strings(&["Small", "Medium", "Large", "Medium"])];
    let mat = build_feature_matrix(4, &Vec::new(), &categorical).unwrap();
    assert_eq!(mat.vocabularies, vec![strings(&["Large", "Medium", "Small"])]);
    assert_eq!(mat.rows[0], vec![0, 0, FEATURE_ONE]);
    assert_eq!(mat.rows[1], vec![0, FEATURE_ONE, 0]);
    assert_eq!(mat.rows[2], vec![FEATURE_ONE, 0, 0]);
    assert_eq!(mat.rows[3], vec![0, FEATURE_ONE, 0]);
}

#[test]
fn normalization_values() {
    let numeric = vec![vec![0, 5, 10], vec![1, 2, 4], vec![-3, 7, 2]];
    let mat = build_feature_matrix(3, &numeric, &Vec::new()).unwrap();
    assert_eq!(mat.rows[0], vec![0, 0, 0]);
    assert_eq!(mat.rows[1], vec![500, 333, FEATURE_ONE]);
    assert_eq!(mat.rows[2], vec![FEATURE_ONE, FEATURE_ONE, 500]);
}

#[test]
fn extreme_values_normalize_within_range() {
    let numeric = vec![vec![i64::MIN, 0, i64::MAX]];
    let mat = build_feature_matrix(3, &numeric, &Vec::new()).unwrap();
    assert_eq!(mat.rows, vec![vec![0], vec![500], vec![FEATURE_ONE]]);
}

#[test]
fn constant_column_scales_to_zero() {
    let numeric = vec![vec![7, 7, 7]];
    let mat = build_feature_matrix(3, &numeric, &Vec::new()).unwrap();
    assert_eq!(mat.rows, vec![vec![0], vec![0], vec![0]]);
}

#[test]
fn empty_catalog() {
    let numeric = vec![Vec::new()];
    let categorical = vec![Vec::new()];
    let mat = build_feature_matrix(0, &numeric, &categorical).unwrap();
    assert_eq!(mat.nrows(), 0);
    assert_eq!(mat.ncols(), 1);
}

#[test]
fn short_numeric_column_is_rejected() {
    let numeric = vec![vec![1, 2], vec![1]];
    let categorical = vec![strings(&["x"])];
    let r = build_feature_matrix(2, &numeric, &categorical);
    assert_eq!(r.err(), Some(FeatureError::NumericColumnLength(1)));
}

#[test]
fn long_categorical_column_is_rejected() {
    let numeric = vec![vec![1, 2]];
    let categorical = vec![strings(&["x", "y"]), strings(&["x", "y", "z"])];
    let r = build_feature_matrix(2, &numeric, &categorical);
    assert_eq!(r.err(), Some(FeatureError::CategoricalColumnLength(1)));
}

#[test]
fn too_many_features_is_rejected() {
    let numeric: Vec<Vec<i64>> = vec![Vec::new(); item_recs::MAX_FEATURE_LEN + 1];
    let r = build_feature_matrix(0, &numeric, &Vec::new());
    assert_eq!(r.err(), Some(FeatureError::TooManyFeatures));
}

#[test]
fn one_hot_has_exactly_one_set_position() {
    let categorical = vec![strings(&["b", "a", "c", "a", "b"]), strings(&["q", "p", "q", "q", "p"])];
    let mat = build_feature_matrix(5, &Vec::new(), &categorical).unwrap();
    for row in &mat.rows {
        assert_eq!(row[0..3].iter().filter(|&&x| x == FEATURE_ONE).count(), 1);
        assert_eq!(row[0..3].iter().filter(|&&x| x == 0).count(), 2);
        assert_eq!(row[3..5].iter().filter(|&&x| x == FEATURE_ONE).count(), 1);
    }
}

#[test]
fn vocabulary_is_sorted_and_distinct() {
    let v = vocabulary(&strings(&["b", "a", "b", "c", "Z", "é", "ab"]));
    assert_eq!(v, strings(&["Z", "a", "ab", "b", "c", "é"]));
    assert_eq!(vocabulary(&Vec::new()), Vec::<String>::new());
}

#[test]
fn repeated_feature_builds_are_identical() {
    let numeric = vec![vec![5, 1, 9], vec![2, 2, 3]];
    let categorical = vec![strings(&["red", "blue", "red"])];
    let a = build_feature_matrix(3, &numeric, &categorical).unwrap();
    let b = build_feature_matrix(3, &numeric, &categorical).unwrap();
    assert_eq!(a.rows, b.rows);
    assert_eq!(a.ncols, b.ncols);
    assert_eq!(a.vocabularies, b.vocabularies);
}

#[test]
fn column_lookup() {
    let headers = strings(&["id", "Price", "Brand", "Price"]);
    assert_eq!(item_recs::column_index(&headers, &"Price".to_string()), Some(1));
    assert_eq!(item_recs::column_index(&headers, &"Size".to_string()), None);
}
