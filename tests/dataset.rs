use xor_problem::database::Database;
use xor_problem::matrix::Matrix;

fn rows_of(x: &Matrix<f32>) -> Vec<Vec<f32>> {
    let mut out = Vec::new();
    for i in 0..x.rows() {
        let mut row = Vec::new();
        for j in 0..x.cols() {
            row.push(x.get(i, j));
        }
        out.push(row);
    }
    out
}

#[test]
fn xor_dataset_has_four_pairs() {
    let db = Database::from_xor(1.0f32, -1.0f32, 0.0f32);
    assert_eq!(db.training_set_size(), 4);
    assert_eq!(db.testing_set_size(), 4);
}

#[test]
fn xor_pairs_in_order() {
    let mut db = Database::from_xor(1.0f32, -1.0f32, 0.0f32);
    let expected = vec![
        (vec![vec![1.0f32], vec![1.0]], vec![vec![1.0f32], vec![0.0]]),
        (vec![vec![-1.0f32], vec![-1.0]], vec![vec![1.0f32], vec![0.0]]),
        (vec![vec![-1.0f32], vec![1.0]], vec![vec![0.0f32], vec![1.0]]),
        (vec![vec![1.0f32], vec![-1.0]], vec![vec![0.0f32], vec![1.0]]),
    ];
    for (sample, label) in expected {
        let (x, y) = db.next_training();
        assert_eq!(rows_of(&x), sample);
        assert_eq!(rows_of(&y), label);
    }
}

#[test]
fn training_cursor_wraps_after_four_calls() {
    let mut db = Database::from_xor(1.0f32, -1.0f32, 0.0f32);
    let first = db.next_training();
    for _ in 0..3 {
        db.next_training();
    }
    let fifth = db.next_training();
    assert_eq!(rows_of(&first.0), rows_of(&fifth.0));
    assert_eq!(rows_of(&first.1), rows_of(&fifth.1));
}

#[test]
fn testing_cursor_is_independent() {
    let mut db = Database::from_xor(1.0f32, -1.0f32, 0.0f32);
    db.next_training();
    db.next_training();
    let (x, _) = db.next_testing();
    assert_eq!(rows_of(&x), vec![vec![1.0f32], vec![1.0]]);
    let (x2, _) = db.next_training();
    assert_eq!(rows_of(&x2), vec![vec![-1.0f32], vec![1.0]]);
}

#[test]
fn custom_dataset_of_one_pair_repeats() {
    let a = Matrix::from_2d_vec(1, 1, vec![vec![3.0f32]]);
    let l = Matrix::from_2d_vec(1, 1, vec![vec![1.0f32]]);
    let mut db = Database::new(vec![a.duplicate()], vec![l.duplicate()], vec![a], vec![l]);
    assert_eq!(db.next_testing().0.get(0, 0), 3.0);
    assert_eq!(db.next_testing().0.get(0, 0), 3.0);
}

#[test]
fn xor_pairs_fit_two_by_one_columns() {
    let db = Database::from_xor(1.0f32, -1.0f32, 0.0f32);
    assert!(db.fits(2, 2));
    assert!(!db.fits(3, 2));
    assert!(!db.fits(2, 1));
}
