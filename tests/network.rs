use rand_distr::{Distribution, Normal};
use xor_problem::database::Database;
use xor_problem::layers::HiddenLayer;
use xor_problem::matrix::Matrix;
use xor_problem::neural_network::NeuralNetwork;

#[derive(Clone, Copy, Debug, PartialEq)]
enum Act {
    Relu,
    Sigmoid,
}

fn apply(k: Act, x: f32) -> f32 {
    match k {
        Act::Relu => {
            if 0.0 > x {
                0.0
            } else {
                x
            }
        }
        Act::Sigmoid => 1.0 / (1.0 + (x * -1.0).exp()),
    }
}

fn derive(k: Act, x: f32) -> f32 {
    match k {
        Act::Relu => {
            if x > 0.0 {
                1.0
            } else {
                0.0
            }
        }
        Act::Sigmoid => {
            let s = apply(Act::Sigmoid, x);
            s * (1.0 - s)
        }
    }
}

fn m(rows: usize, cols: usize, data: Vec<Vec<f32>>) -> Matrix<f32> {
    Matrix::from_2d_vec(rows, cols, data)
}

fn random(rows: usize, cols: usize) -> Matrix<f32> {
    let normal = Normal::new(0.0f32, 0.02f32).unwrap();
    Matrix::from_random(rows, cols, || normal.sample(&mut rand::thread_rng()))
}

fn xor_network(epochs: usize) -> NeuralNetwork<f32, Act> {
    let layers = vec![
        HiddenLayer::from_parameters(random(3, 2), random(3, 1), Act::Relu),
        HiddenLayer::from_parameters(random(3, 3), random(3, 1), Act::Relu),
        HiddenLayer::from_parameters(random(2, 3), random(2, 1), Act::Sigmoid),
    ];
    NeuralNetwork::new(Database::from_xor(1.0f32, -1.0, 0.0), layers, epochs, false)
}

fn train(net: &mut NeuralNetwork<f32, Act>) {
    net.train(
        0.0,
        |a: f32, x: f32, y: f32| a + x * y,
        |x: f32, y: f32| x + y,
        |x: f32, y: f32| x - y,
        |x: f32, y: f32| x * y,
        apply,
        derive,
        |n: usize| 1.0 / n as f32,
        1.02,
    );
}

fn accuracy(net: &mut NeuralNetwork<f32, Act>) -> f32 {
    let (correct, _) = net.test(
        0.0,
        1.0,
        |a: f32, x: f32, y: f32| a + x * y,
        |x: f32, y: f32| x + y,
        apply,
        |x: f32, y: f32| x > y,
        |x: f32, y: f32| x == y,
    );
    correct as f32 / net.training_set_size() as f32
}

fn reset(net: &mut NeuralNetwork<f32, Act>) {
    let normal = Normal::new(0.0f32, 0.02f32).unwrap();
    net.reset_model(|| normal.sample(&mut rand::thread_rng()));
}

#[test]
fn mse_loss_gradient_is_difference() {
    let p = m(2, 1, vec![vec![2.0], vec![1.0]]);
    let t = m(2, 1, vec![vec![1.0], vec![1.0]]);
    let g = NeuralNetwork::<f32, Act>::mse_loss_gradient(&p, &t, |x: f32, y: f32| x - y);
    assert!(g.equals(&m(2, 1, vec![vec![1.0], vec![0.0]]), |x: f32, y: f32| x == y));
}

#[test]
fn forward_chains_layers() {
    let layers = vec![
        HiddenLayer::from_parameters(m(1, 2, vec![vec![1.0, 1.0]]), m(1, 1, vec![vec![0.0]]), Act::Relu),
        HiddenLayer::from_parameters(m(2, 1, vec![vec![2.0], vec![-1.0]]), m(2, 1, vec![vec![0.5], vec![0.0]]), Act::Relu),
    ];
    let mut net = NeuralNetwork::new(Database::from_xor(1.0f32, -1.0, 0.0), layers, 1, false);
    let out = net.forward(
        &m(2, 1, vec![vec![1.0], vec![2.0]]),
        0.0,
        |a: f32, x: f32, y: f32| a + x * y,
        |x: f32, y: f32| x + y,
        apply,
    );
    // first layer: relu(1 + 2) = 3; second: relu([6.5, -3]) = [6.5, 0]
    assert_eq!((out.get(0, 0), out.get(1, 0)), (6.5, 0.0));
    let class = net.classify(
        &m(2, 1, vec![vec![1.0], vec![2.0]]),
        0.0,
        1.0,
        |a: f32, x: f32, y: f32| a + x * y,
        |x: f32, y: f32| x + y,
        apply,
        |x: f32, y: f32| x > y,
    );
    assert_eq!((class.get(0, 0), class.get(1, 0)), (1.0, 0.0));
}

#[test]
fn test_counts_pairs_classified_right() {
    // output row 0 wins when both inputs agree and are positive, else row 1
    let layers = vec![HiddenLayer::from_parameters(
        m(2, 2, vec![vec![1.0, 1.0], vec![0.0, 0.0]]),
        m(2, 1, vec![vec![0.0], vec![0.5]]),
        Act::Sigmoid,
    )];
    let mut net = NeuralNetwork::new(Database::from_xor(1.0f32, -1.0, 0.0), layers, 1, false);
    // pairs: (1,1)->row0 right; (-1,-1)->row1 wrong; (-1,1)->tie at 0.5 vs sigmoid(0.5): row1 right; (1,-1) same: right
    assert_eq!(accuracy(&mut net), 0.75);
}

#[test]
fn reset_keeps_shapes() {
    let mut net = xor_network(1);
    reset(&mut net);
    assert_eq!(net.depth_of(), 3);
    assert_eq!(net.layer_shape(0), (3, 2));
    assert_eq!(net.layer_shape(2), (2, 3));
    assert_eq!(net.epochs_of(), 1);
    assert!(!net.shows_model_outputs());
}

#[test]
fn xor_training_reaches_target_accuracy() {
    let mut net = xor_network(1000);
    let normal = Normal::new(0.0f32, 0.02f32).unwrap();
    let (rounds, reached) = net.generate_model(
        |correct: usize, size: usize| correct as f32 / size as f32 >= 0.98,
        || normal.sample(&mut rand::thread_rng()),
        |_round: usize| {},
        30,
        0.0,
        1.0,
        |a: f32, x: f32, y: f32| a + x * y,
        |x: f32, y: f32| x + y,
        |x: f32, y: f32| x - y,
        |x: f32, y: f32| x * y,
        apply,
        derive,
        |n: usize| 1.0 / n as f32,
        1.02,
        |x: f32, y: f32| x > y,
        |x: f32, y: f32| x == y,
    );
    assert!(reached, "no convergence within 30 training rounds");
    assert!(rounds <= 30);
    assert!(accuracy(&mut net) >= 0.98);
}

#[test]
fn generate_model_with_no_rounds_allowed_gives_up_at_once() {
    let mut net = xor_network(1);
    let normal = Normal::new(0.0f32, 0.02f32).unwrap();
    let (rounds, reached) = net.generate_model(
        |_correct: usize, _size: usize| false,
        || normal.sample(&mut rand::thread_rng()),
        |_round: usize| {},
        0,
        0.0,
        1.0,
        |a: f32, x: f32, y: f32| a + x * y,
        |x: f32, y: f32| x + y,
        |x: f32, y: f32| x - y,
        |x: f32, y: f32| x * y,
        apply,
        derive,
        |n: usize| 1.0 / n as f32,
        1.02,
        |x: f32, y: f32| x > y,
        |x: f32, y: f32| x == y,
    );
    assert_eq!((rounds, reached), (0, false));
}

#[test]
fn train_runs_and_keeps_shapes() {
    let mut net = xor_network(2);
    train(&mut net);
    assert_eq!(net.layer_shape(1), (3, 3));
}

#[test]
fn from_random_draws_one_value_per_element() {
    let r = Matrix::from_random(2, 3, || 0.25f32);
    assert_eq!((r.rows(), r.cols()), (2, 3));
    for i in 0..2 {
        for j in 0..3 {
            assert_eq!(r.get(i, j), 0.25);
        }
    }
    let normal = Normal::new(0.0f32, 0.02f32).unwrap();
    let g = Matrix::from_random(50, 4, || normal.sample(&mut rand::thread_rng()));
    let mut total = 0.0f32;
    for i in 0..50 {
        for j in 0..4 {
            total += g.get(i, j);
        }
    }
    assert!((total / 200.0).abs() < 0.02);
}

#[test]
fn test_reports_each_pair_with_its_classification() {
    let layers = vec![HiddenLayer::from_parameters(
        m(2, 2, vec![vec![1.0, 1.0], vec![0.0, 0.0]]),
        m(2, 1, vec![vec![0.0], vec![0.5]]),
        Act::Sigmoid,
    )];
    let mut net = NeuralNetwork::new(Database::from_xor(1.0f32, -1.0, 0.0), layers, 1, false);
    let (correct, seen) = net.test(
        0.0,
        1.0,
        |a: f32, x: f32, y: f32| a + x * y,
        |x: f32, y: f32| x + y,
        apply,
        |x: f32, y: f32| x > y,
        |x: f32, y: f32| x.to_bits() == y.to_bits(),
    );
    assert_eq!(correct, 3);
    assert_eq!(seen.len(), 4);
    let (input, label, class) = &seen[1];
    assert_eq!((input.get(0, 0), input.get(1, 0)), (-1.0, -1.0));
    assert_eq!((label.get(0, 0), label.get(1, 0)), (1.0, 0.0));
    assert_eq!((class.get(0, 0), class.get(1, 0)), (0.0, 1.0));
}

#[test]
fn generate_model_stops_at_once_when_first_test_is_good_enough() {
    let mut net = xor_network(1);
    let (rounds, reached) = net.generate_model(
        |_correct: usize, _size: usize| true,
        || 0.0f32,
        |_round: usize| panic!("no round should start"),
        5,
        0.0,
        1.0,
        |a: f32, x: f32, y: f32| a + x * y,
        |x: f32, y: f32| x + y,
        |x: f32, y: f32| x - y,
        |x: f32, y: f32| x * y,
        apply,
        derive,
        |n: usize| 1.0 / n as f32,
        1.02,
        |x: f32, y: f32| x > y,
        |x: f32, y: f32| x == y,
    );
    assert_eq!((rounds, reached), (0, true));
}
