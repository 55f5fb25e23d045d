use railog::centroids::check_rows;
use railog::centroids::retrain;
use railog::centroids::CentroidSet;
use railog::centroids::ShapeError;

#[test]
fn new_set_is_empty() {
    let set: CentroidSet<f32> = CentroidSet::new(384);
    assert_eq!(set.len(), 0);
    assert_eq!(set.dim(), 384);
    assert!(set.rows().is_empty());
}

#[test]
fn rows_of_one_dimension_make_a_set() {
    let set = CentroidSet::from_rows(2, vec![vec![1.0f32, 2.0], vec![3.0, 4.0]]).unwrap();
    assert_eq!(set.len(), 2);
    assert_eq!(set.dim(), 2);
    assert_eq!(set.rows(), &vec![vec![1.0, 2.0], vec![3.0, 4.0]]);
    assert_eq!(set.into_rows(), vec![vec![1.0, 2.0], vec![3.0, 4.0]]);
    let none = CentroidSet::from_rows(3, Vec::<Vec<f32>>::new()).unwrap();
    assert_eq!(none.len(), 0);
    assert_eq!(none.dim(), 3);
}

#[test]
fn ragged_rows_are_refused_at_the_first_of_them() {
    assert_eq!(
        CentroidSet::from_rows(2, vec![vec![1, 2], vec![3], vec![4, 5, 6]]).err(),
        Some(ShapeError::Dimension { row: 1, expected: 2, found: 1 })
    );
    assert_eq!(
        check_rows(2, &vec![vec![1, 2, 3]]),
        Err(ShapeError::Dimension { row: 0, expected: 2, found: 3 })
    );
    assert_eq!(check_rows(2, &vec![vec![1, 2], vec![3, 4]]), Ok(()));
    assert_eq!(check_rows(0, &vec![Vec::<u8>::new()]), Ok(()));
}

#[test]
fn replacing_a_row_changes_that_row_alone() {
    let mut set = CentroidSet::from_rows(2, vec![vec![1, 2], vec![3, 4], vec![5, 6]]).unwrap();
    assert_eq!(set.replace_row(1, vec![7, 8]), Ok(()));
    assert_eq!(set.rows(), &vec![vec![1, 2], vec![7, 8], vec![5, 6]]);
    assert_eq!(set.len(), 3);
}

#[test]
fn replacing_is_refused_past_the_end_or_in_another_dimension() {
    let mut set = CentroidSet::from_rows(2, vec![vec![1, 2], vec![3, 4]]).unwrap();
    assert_eq!(set.replace_row(2, vec![7, 8]), Err(ShapeError::NoSuchRow { row: 2, rows: 2 }));
    assert_eq!(
        set.replace_row(0, vec![7, 8, 9]),
        Err(ShapeError::Dimension { row: 0, expected: 2, found: 3 })
    );
    assert_eq!(set.replace_row(5, vec![7]), Err(ShapeError::NoSuchRow { row: 5, rows: 2 }));
    assert_eq!(set.rows(), &vec![vec![1, 2], vec![3, 4]]);
}

#[test]
fn appending_keeps_rows_and_order() {
    let mut set = CentroidSet::from_rows(1, vec![vec![1]]).unwrap();
    assert_eq!(set.append(vec![vec![2], vec![3]]), Ok(()));
    assert_eq!(set.append(Vec::new()), Ok(()));
    assert_eq!(set.rows(), &vec![vec![1], vec![2], vec![3]]);
    assert_eq!(
        set.append(vec![vec![4], vec![5, 6]]),
        Err(ShapeError::Dimension { row: 1, expected: 1, found: 2 })
    );
    assert_eq!(set.rows(), &vec![vec![1], vec![2], vec![3]]);
}

#[test]
fn retraining_adds_one_centroid_per_backlog_vector() {
    let mut set = CentroidSet::from_rows(2, vec![vec![0.5f32, 0.5], vec![1.0, 0.0]]).unwrap();
    let backlog = vec![vec![0.0f32, 1.0], vec![0.6, 0.8], vec![1.0, 0.0]];
    assert_eq!(retrain(&mut set, backlog), Ok(3));
    assert_eq!(set.len(), 2 + 3);
    assert_eq!(
        set.rows(),
        &vec![vec![0.5, 0.5], vec![1.0, 0.0], vec![0.0, 1.0], vec![0.6, 0.8], vec![1.0, 0.0]]
    );
}

#[test]
fn retraining_with_an_empty_backlog_changes_nothing() {
    let mut set = CentroidSet::from_rows(2, vec![vec![0.5f32, 0.5]]).unwrap();
    assert_eq!(retrain(&mut set, Vec::new()), Ok(0));
    assert_eq!(set.len(), 1);
    assert_eq!(set.dim(), 2);
    assert_eq!(set.rows(), &vec![vec![0.5, 0.5]]);
}

#[test]
fn retraining_with_a_vector_of_another_dimension_changes_nothing() {
    let mut set = CentroidSet::from_rows(2, vec![vec![1, 1]]).unwrap();
    assert_eq!(
        retrain(&mut set, vec![vec![2, 2], vec![3, 3, 3]]),
        Err(ShapeError::Dimension { row: 1, expected: 2, found: 3 })
    );
    assert_eq!(set.rows(), &vec![vec![1, 1]]);
    let mut empty: CentroidSet<u8> = CentroidSet::new(4);
    assert_eq!(
        retrain(&mut empty, vec![vec![1, 2]]),
        Err(ShapeError::Dimension { row: 0, expected: 4, found: 2 })
    );
    assert_eq!(empty.len(), 0);
}
