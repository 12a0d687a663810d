use xor_problem::activation_functions::{d_relu, relu};
use xor_problem::matrix::Matrix;

fn m(rows: usize, cols: usize, data: Vec<Vec<f32>>) -> Matrix<f32> {
    Matrix::from_2d_vec(rows, cols, data)
}

fn same(a: f32, b: f32) -> bool {
    a == b
}

fn to_rows(x: &Matrix<f32>) -> Vec<Vec<f32>> {
    let mut out = Vec::new();
    for i in 0..x.rows() {
        let mut row = Vec::new();
        for j in 0..x.cols() {
            row.push(x.get(i, j));
        }
        out.push(row);
    }
    out
}

fn sigmoid(x: &Matrix<f32>) -> Matrix<f32> {
    x.map(|v: f32| 1.0f32 / (1.0f32 + (-v).exp()))
}

#[test]
fn fill_with_sets_every_element() {
    let a = Matrix::fill_with(2.5f32, 2, 3);
    assert_eq!(a.rows(), 2);
    assert_eq!(a.cols(), 3);
    assert_eq!(to_rows(&a), vec![vec![2.5f32; 3]; 2]);
}

#[test]
fn from_vec_is_one_row() {
    let a = Matrix::from_vec(3, vec![1.0f32, 2.0, 3.0]);
    assert_eq!(a.rows(), 1);
    assert_eq!(a.cols(), 3);
    assert_eq!(to_rows(&a), vec![vec![1.0f32, 2.0, 3.0]]);
}

#[test]
fn set_changes_one_element() {
    let mut a = Matrix::fill_with(0.0f32, 2, 2);
    a.set(1, 0, 7.0);
    assert_eq!(to_rows(&a), vec![vec![0.0f32, 0.0], vec![7.0, 0.0]]);
}

#[test]
fn dot_product_shape_and_values() {
    let a = m(2, 3, vec![vec![1.0, 2.0, 3.0], vec![4.0, 5.0, 6.0]]);
    let b = m(3, 2, vec![vec![7.0, 8.0], vec![9.0, 10.0], vec![11.0, 12.0]]);
    let c = a.dot_product(&b, 0.0f32, &|acc: f32, x: f32, y: f32| acc + x * y);
    assert_eq!(c.rows(), 2);
    assert_eq!(c.cols(), 2);
    assert_eq!(to_rows(&c), vec![vec![58.0f32, 64.0], vec![139.0, 154.0]]);
}

#[test]
fn dot_product_of_row_and_column_is_one_by_one() {
    let a = m(1, 4, vec![vec![1.0, 1.0, 1.0, 1.0]]);
    let b = m(4, 1, vec![vec![1.0], vec![2.0], vec![3.0], vec![4.0]]);
    let c = a.dot_product(&b, 0.0f32, &|acc: f32, x: f32, y: f32| acc + x * y);
    assert_eq!((c.rows(), c.cols()), (1, 1));
    assert_eq!(c.get(0, 0), 10.0);
}

#[test]
fn transpose_swaps_shape_and_twice_gives_back() {
    let a = m(2, 3, vec![vec![1.0, 2.0, 3.0], vec![4.0, 5.0, 6.0]]);
    let t = a.transpose();
    assert_eq!((t.rows(), t.cols()), (3, 2));
    assert_eq!(to_rows(&t), vec![vec![1.0f32, 4.0], vec![2.0, 5.0], vec![3.0, 6.0]]);
    let tt = t.transpose();
    assert!(tt.equals(&a, same));
}

#[test]
fn scaling_by_one_keeps_the_matrix() {
    let a = m(2, 2, vec![vec![1.5, -2.0], vec![0.0, 3.25]]);
    let s = Matrix::apply_scalar(&a, 1.0f32, |x: f32, k: f32| x * k);
    assert!(s.equals(&a, same));
}

#[test]
fn scaling_multiplies_every_element() {
    let a = m(1, 3, vec![vec![1.0, -2.0, 4.0]]);
    let s = Matrix::apply_scalar(&a, 0.5f32, |x: f32, k: f32| x * k);
    assert_eq!(to_rows(&s), vec![vec![0.5f32, -1.0, 2.0]]);
}

#[test]
fn elementwise_operations() {
    let a = m(1, 2, vec![vec![6.0, 1.0]]);
    let b = m(1, 2, vec![vec![2.0, 0.0]]);
    assert_eq!(to_rows(&a.zip_with(&b, |x: f32, y: f32| x + y)), vec![vec![8.0f32, 1.0]]);
    assert_eq!(to_rows(&a.zip_with(&b, |x: f32, y: f32| x - y)), vec![vec![4.0f32, 1.0]]);
    assert_eq!(to_rows(&a.zip_with(&b, |x: f32, y: f32| x * y)), vec![vec![12.0f32, 0.0]]);
    let q = a.zip_with(&b, |x: f32, y: f32| x / y);
    assert_eq!(q.get(0, 0), 3.0);
    assert!(q.get(0, 1).is_infinite());
}

#[test]
fn mse_gradient_is_prediction_minus_truth() {
    let p = m(2, 1, vec![vec![2.0], vec![1.0]]);
    let t = m(2, 1, vec![vec![1.0], vec![1.0]]);
    let g = p.zip_with(&t, |x: f32, y: f32| x - y);
    assert!(g.equals(&m(2, 1, vec![vec![1.0], vec![0.0]]), same));
}

#[test]
fn subtract_in_place() {
    let mut a = m(2, 1, vec![vec![5.0], vec![3.0]]);
    let b = m(2, 1, vec![vec![1.0], vec![4.0]]);
    a.zip_assign(&b, |x: f32, y: f32| x - y);
    assert_eq!(to_rows(&a), vec![vec![4.0f32], vec![-1.0]]);
}

#[test]
fn sum_of_all_elements() {
    let a = m(2, 2, vec![vec![1.0, 2.0], vec![3.0, 4.5]]);
    assert_eq!(Matrix::sum(&a, 0.0f32, |x: f32, y: f32| x + y), 10.5);
}

#[test]
fn row_sums_fill_each_row() {
    let a = m(2, 3, vec![vec![1.0, 2.0, 3.0], vec![-1.0, 0.0, 4.0]]);
    let r = Matrix::colwise_sum_maintain_dim(&a, 0.0f32, |x: f32, y: f32| x + y);
    assert_eq!(to_rows(&r), vec![vec![6.0f32; 3], vec![3.0f32; 3]]);
}

#[test]
fn max_of_is_a_floor() {
    let a = m(1, 4, vec![vec![-1.0, 0.0, 2.0, -0.5]]);
    let r = Matrix::max_of(0.0f32, &a, |x: f32, y: f32| x > y);
    assert_eq!(to_rows(&r), vec![vec![0.0f32, 0.0, 2.0, 0.0]]);
    for j in 0..4 {
        assert!(r.get(0, j) >= 0.0);
    }
}

#[test]
fn one_hot_three_by_one_at_row_one() {
    let a = Matrix::one_hot_encode(3, 1, 1, 0.0f32, 1.0f32);
    assert!(a.equals(&m(3, 1, vec![vec![0.0], vec![1.0], vec![0.0]]), same));
}

#[test]
fn argmax_picks_the_largest_row() {
    let a = m(3, 1, vec![vec![0.1], vec![0.7], vec![0.3]]);
    assert_eq!(a.index_of_maximum(|x: f32, y: f32| x > y), 1);
    let h = Matrix::one_hot_encode_by_maximum(&a, |x: f32, y: f32| x > y, 0.0f32, 1.0f32);
    assert!(h.equals(&m(3, 1, vec![vec![0.0], vec![1.0], vec![0.0]]), same));
}

#[test]
fn argmax_tie_goes_to_the_lower_row() {
    let a = m(4, 1, vec![vec![0.2], vec![0.9], vec![0.1], vec![0.9]]);
    assert_eq!(a.index_of_maximum(|x: f32, y: f32| x > y), 1);
    let b = m(2, 1, vec![vec![0.5], vec![0.5]]);
    let h = Matrix::one_hot_encode_by_maximum(&b, |x: f32, y: f32| x > y, 0.0f32, 1.0f32);
    assert!(h.equals(&m(2, 1, vec![vec![1.0], vec![0.0]]), same));
}

#[test]
fn equality_needs_same_shape_and_elements() {
    let a = m(2, 1, vec![vec![1.0], vec![0.0]]);
    let b = m(1, 2, vec![vec![1.0, 0.0]]);
    let c = m(2, 1, vec![vec![1.0], vec![0.5]]);
    assert!(!a.equals(&b, same));
    assert!(!a.equals(&c, same));
    assert!(a.equals(&a.duplicate(), same));
}

#[test]
fn sigmoid_lies_strictly_between_zero_and_one() {
    let a = m(1, 5, vec![vec![-10.0, -1.0, 0.0, 1.0, 10.0]]);
    let s = sigmoid(&a);
    for j in 0..5 {
        let v = s.get(0, j);
        assert!(v > 0.0 && v < 1.0);
    }
    assert_eq!(s.get(0, 2), 0.5);
}

#[test]
fn relu_is_never_negative() {
    let a = m(2, 2, vec![vec![-3.0, 2.0], vec![0.0, -0.1]]);
    let r = Matrix::max_of(0.0f32, &a, |x: f32, y: f32| x > y);
    for i in 0..2 {
        for j in 0..2 {
            assert!(r.get(i, j) >= 0.0);
        }
    }
}

#[test]
fn derivatives_match_finite_differences() {
    let h = 1e-3f32;
    for &x in &[-1.5f32, -0.3, 0.4, 2.0] {
        let at = |v: f32| m(1, 1, vec![vec![v]]);
        let s = sigmoid(&at(x)).get(0, 0);
        let d_sig = s * (1.0 - s);
        let fd_sig = (sigmoid(&at(x + h)).get(0, 0) - sigmoid(&at(x - h)).get(0, 0)) / (2.0 * h);
        assert!((d_sig - fd_sig).abs() < 1e-3);

        let t = at(x).map(|v: f32| v.tanh());
        let d_tanh = 1.0 - t.get(0, 0).powf(2.0);
        let fd_tanh = ((x + h).tanh() - (x - h).tanh()) / (2.0 * h);
        assert!((d_tanh - fd_tanh).abs() < 1e-3);

        let relu = |v: f32| Matrix::max_of(0.0f32, &at(v), |p: f32, q: f32| p > q).get(0, 0);
        let d_relu = if x > 0.0 { 1.0f32 } else { 0.0 };
        let fd_relu = (relu(x + h) - relu(x - h)) / (2.0 * h);
        assert!((d_relu - fd_relu).abs() < 1e-3);
    }
}

#[test]
fn layer_forward_twice_gives_the_same_output() {
    let w = m(2, 2, vec![vec![0.3, -0.2], vec![0.05, 0.7]]);
    let b = m(2, 1, vec![vec![0.01], vec![-0.02]]);
    let x = m(2, 1, vec![vec![1.0], vec![-1.0]]);
    let forward = |x: &Matrix<f32>| {
        let h = w.dot_product(x, 0.0f32, &|acc: f32, p: f32, q: f32| acc + p * q);
        sigmoid(&h.zip_with(&b, |p: f32, q: f32| p + q))
    };
    let first = forward(&x);
    let second = forward(&x);
    assert!(first.equals(&second, same));
}

#[test]
fn empty_and_single_element_shapes() {
    let e = Matrix::fill_with(1.0f32, 0, 3);
    assert_eq!((e.rows(), e.cols()), (0, 3));
    let t = e.transpose();
    assert_eq!((t.rows(), t.cols()), (3, 0));
    let one = m(1, 1, vec![vec![4.0]]);
    assert_eq!(one.transpose().get(0, 0), 4.0);
    assert_eq!(one.index_of_maximum(|x: f32, y: f32| x > y), 0);
}

#[test]
fn argmax_of_all_equal_column_is_first_row() {
    let a = Matrix::fill_with(0.5f32, 4, 1);
    assert_eq!(a.index_of_maximum(|x: f32, y: f32| x > y), 0);
}

#[test]
fn relu_and_its_slope() {
    let a = m(1, 4, vec![vec![-2.0, 0.0, 0.5, 3.0]]);
    let r = relu(&a, |x: f32, y: f32| x > y, 0.0);
    assert_eq!(to_rows(&r), vec![vec![0.0f32, 0.0, 0.5, 3.0]]);
    let d = d_relu(&a, |x: f32, y: f32| x > y, 0.0, 1.0);
    assert_eq!(to_rows(&d), vec![vec![0.0f32, 0.0, 1.0, 1.0]]);
}
