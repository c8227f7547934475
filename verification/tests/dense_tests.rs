use phantasy::dense::{dense_last_start, select_dense_match, DenseMatch};

#[test]
fn the_snippet_slides_up_to_the_last_column_where_it_fits() {
    assert_eq!(dense_last_start(3, 10), Some(7));
    assert_eq!(dense_last_start(184, 1122), Some(938));
    assert_eq!(dense_last_start(0, 10), Some(10));
    assert_eq!(dense_last_start(0, 0), Some(0));
}

#[test]
fn a_snippet_that_is_the_whole_track_fits_at_column_zero_only() {
    assert_eq!(dense_last_start(10, 10), Some(0));
    assert_eq!(
        select_dense_match(&vec![1_000], 500),
        Some(DenseMatch { column: 0, score: 1_000 })
    );
}

#[test]
fn a_snippet_longer_than_the_track_fits_nowhere() {
    assert_eq!(dense_last_start(11, 10), None);
    assert_eq!(dense_last_start(1, 0), None);
    assert_eq!(dense_last_start(usize::MAX, 0), None);
}

#[test]
fn the_highest_score_wins() {
    assert_eq!(
        select_dense_match(&vec![10, 70, 30, 60], 50),
        Some(DenseMatch { column: 1, score: 70 })
    );
    assert_eq!(
        select_dense_match(&vec![-5, -9, -1], -3),
        Some(DenseMatch { column: 2, score: -1 })
    );
}

#[test]
fn of_equal_scores_the_first_column_wins() {
    assert_eq!(
        select_dense_match(&vec![10, 70, 70, 60, 70], 50),
        Some(DenseMatch { column: 1, score: 70 })
    );
}

#[test]
fn a_score_at_the_threshold_is_a_match() {
    assert_eq!(
        select_dense_match(&vec![10, 50, 30], 50),
        Some(DenseMatch { column: 1, score: 50 })
    );
    assert_eq!(select_dense_match(&vec![10, 49, 30], 50), None);
    assert_eq!(
        select_dense_match(&vec![i64::MIN], i64::MIN),
        Some(DenseMatch { column: 0, score: i64::MIN })
    );
    assert_eq!(select_dense_match(&vec![i64::MAX - 1], i64::MAX), None);
}

#[test]
fn no_scores_no_match() {
    assert_eq!(select_dense_match(&Vec::new(), 0), None);
    assert_eq!(select_dense_match(&Vec::new(), i64::MIN), None);
}
