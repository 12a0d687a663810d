use xor_problem::layers::HiddenLayer;
use xor_problem::matrix::Matrix;

fn m(rows: usize, cols: usize, data: Vec<Vec<f32>>) -> Matrix<f32> {
    Matrix::from_2d_vec(rows, cols, data)
}

fn rows_of(x: &Matrix<f32>) -> Vec<Vec<f32>> {
    (0..x.rows()).map(|i| (0..x.cols()).map(|j| x.get(i, j)).collect()).collect()
}

fn relu(x: f32) -> f32 {
    if 0.0 > x { 0.0 } else { x }
}

fn d_relu(x: f32) -> f32 {
    if x > 0.0 { 1.0 } else { 0.0 }
}

fn layer() -> HiddenLayer<f32, u8> {
    HiddenLayer::from_parameters(
        m(2, 2, vec![vec![1.0, 2.0], vec![-1.0, 0.5]]),
        m(2, 1, vec![vec![0.5], vec![-4.0]]),
        0u8,
    )
}

fn forward(l: &mut HiddenLayer<f32, u8>, x: &Matrix<f32>) -> Matrix<f32> {
    l.forward(x, 0.0, |a: f32, p: f32, q: f32| a + p * q, |p: f32, q: f32| p + q, |_k: u8, p: f32| relu(p))
}

fn backward(l: &mut HiddenLayer<f32, u8>, g: &Matrix<f32>, rate: f32) -> Matrix<f32> {
    l.backward(
        g,
        0.0,
        |a: f32, p: f32, q: f32| a + p * q,
        |p: f32, q: f32| p + q,
        |p: f32, q: f32| p - q,
        |p: f32, q: f32| p * q,
        |_k: u8, p: f32| d_relu(p),
        |n: usize| 1.0 / n as f32,
        rate,
    )
}

#[test]
fn new_layer_draws_its_parameters() {
    let mut l: HiddenLayer<f32, u8> = HiddenLayer::new(3, 2, 7u8, || 1.0f32);
    assert_eq!((l.out_dim_of(), l.in_dim_of(), l.activation_of()), (3, 2, 7));
    let out = forward(&mut l, &m(2, 1, vec![vec![1.0], vec![2.0]]));
    assert_eq!(rows_of(&out), vec![vec![4.0f32], vec![4.0], vec![4.0]]);
}

#[test]
fn forward_computes_activation_of_hypothesis() {
    let mut l = layer();
    assert!(!l.caches_filled());
    let out = forward(&mut l, &m(2, 1, vec![vec![1.0], vec![2.0]]));
    // hypothesis: [1 + 4 + 0.5, -1 + 1 - 4] = [5.5, -4]
    assert_eq!(rows_of(&out), vec![vec![5.5f32], vec![0.0]]);
    assert!(l.caches_filled());
    assert_eq!((l.out_dim_of(), l.in_dim_of()), (2, 2));
}

#[test]
fn forward_twice_with_same_input_is_identical() {
    let mut l = layer();
    let x = m(2, 1, vec![vec![0.25], vec![-0.75]]);
    let first = forward(&mut l, &x);
    let second = forward(&mut l, &x);
    assert_eq!(rows_of(&first), rows_of(&second));
}

#[test]
fn backward_updates_parameters_and_returns_gradient() {
    let mut l = layer();
    let x = m(2, 1, vec![vec![1.0], vec![2.0]]);
    forward(&mut l, &x);
    let g = m(2, 1, vec![vec![1.0], vec![1.0]]);
    let next = backward(&mut l, &g, 0.5);
    // gradient wrt hypothesis: [1 * 1, 1 * 0] = [1, 0]
    // next = transpose(old weights) . [1, 0] = [1, 2]
    assert_eq!(rows_of(&next), vec![vec![1.0f32], vec![2.0]]);
    // weights -= 0.5 * [1, 0] . [1, 2] = 0.5 * [[1, 2], [0, 0]]
    // biases  -= 0.5 * (row sums [1, 0]) * (1 / 2)
    let out = forward(&mut l, &m(2, 1, vec![vec![0.0], vec![0.0]]));
    assert_eq!(rows_of(&out), vec![vec![0.25f32], vec![0.0]]);
    let probe = forward(&mut l, &m(2, 1, vec![vec![1.0], vec![0.0]]));
    // new weights row 0: [0.5, 1.0]; bias 0.25 -> 0.75
    assert_eq!(probe.get(0, 0), 0.75);
}

#[test]
fn reset_replaces_parameters() {
    let mut l = layer();
    l.reset_weights_and_biases(|| 0.5f32);
    // hypothesis: 0.5 * 3 + 0.5 * 3 + 0.5 = 3.5 in both rows
    let out = forward(&mut l, &m(2, 1, vec![vec![3.0], vec![3.0]]));
    assert_eq!(rows_of(&out), vec![vec![3.5f32], vec![3.5]]);
    assert_eq!((l.out_dim_of(), l.in_dim_of()), (2, 2));
}
