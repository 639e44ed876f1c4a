use neural::matrix::{Layout, Matrix};
use neural::nn::{NeuralNetwork, Scalars};

struct Logistic {
    state: u64,
}

impl Logistic {
    fn seeded(state: u64) -> Self {
        Logistic { state }
    }

    fn next_unit(&mut self) -> f32 {
        self.state = self.state.wrapping_mul(6364136223846793005).wrapping_add(1442695040888963407);
        ((self.state >> 40) as f32 / (1u64 << 24) as f32) * 2.0 - 1.0
    }
}

impl Scalars<f32> for Logistic {
    fn zero(&self) -> f32 {
        0.0
    }

    fn plus(&self, x: f32, y: f32) -> f32 {
        x + y
    }

    fn minus(&self, x: f32, y: f32) -> f32 {
        x - y
    }

    fn times(&self, x: f32, y: f32) -> f32 {
        x * y
    }

    fn activate(&self, x: f32) -> f32 {
        1.0 / (1.0 + (-x).exp())
    }

    fn activate_slope(&self, y: f32) -> f32 {
        y * (1.0 - y)
    }

    fn initial_weight(&mut self) -> f32 {
        self.next_unit()
    }

    fn default_rate(&self) -> f32 {
        0.003
    }
}

#[test]
fn feedforward_output_has_output_width() {
    let mut nn = NeuralNetwork::new(3, vec![4, 2], 2, Logistic::seeded(1));
    let out = nn.feedforward(vec![0.5, -0.5, 1.0]);
    assert_eq!(out.len(), 2);
    assert!(out.iter().all(|&y| y > 0.0 && y < 1.0));
}

#[test]
fn feedforward_does_not_change_the_network() {
    let mut nn = NeuralNetwork::new(2, vec![3], 1, Logistic::seeded(5));
    let first = nn.feedforward(vec![0.25, 0.75]);
    let second = nn.feedforward(vec![0.25, 0.75]);
    assert_eq!(first, second);
}

#[test]
fn training_moves_output_toward_target() {
    let mut nn = NeuralNetwork::new(2, vec![3], 1, Logistic::seeded(9));
    nn.set_learning_rate(0.5);
    let before = nn.feedforward(vec![1.0, 0.0])[0];
    for _ in 0..200 {
        nn.train(&[1.0, 0.0], &[1.0]);
    }
    let after = nn.feedforward(vec![1.0, 0.0])[0];
    assert!(after > before);
    assert!(after > 0.8);
}

#[test]
fn xor_training_converges() {
    let data: [([f32; 2], [f32; 1]); 4] = [
        ([0.0, 1.0], [1.0]),
        ([1.0, 0.0], [1.0]),
        ([0.0, 0.0], [0.0]),
        ([1.0, 1.0], [0.0]),
    ];
    let mut nn = NeuralNetwork::new(2, vec![5], 1, Logistic::seeded(3));
    nn.set_learning_rate(0.1);
    let mut pick: u64 = 12345;
    for _ in 0..100_000 {
        pick = pick.wrapping_mul(6364136223846793005).wrapping_add(1442695040888963407);
        let (inputs, target) = &data[((pick >> 33) % 4) as usize];
        nn.train(inputs, target);
    }
    assert!(nn.feedforward(vec![0.0, 1.0])[0] > 0.9);
    assert!(nn.feedforward(vec![1.0, 0.0])[0] > 0.9);
    assert!(nn.feedforward(vec![0.0, 0.0])[0] < 0.1);
    assert!(nn.feedforward(vec![1.0, 1.0])[0] < 0.1);
}

#[test]
fn matrix_sigmoid_and_dsigmoid() {
    let s = Logistic::seeded(0);
    let mut m = Matrix::from_flat(&[0.0f32, 2.0, -2.0], 3, 1, Layout::RowMajor);
    m.sigmoid(&s);
    let y = m.to_vec();
    assert!((y[0] - 0.5).abs() < 1e-6);
    assert!((y[1] - 0.880797).abs() < 1e-5);
    assert!((y[2] - 0.119203).abs() < 1e-5);
    let mut slope = Matrix::filled(3, 1, 0.0f32);
    m.dsigmoid(&s, &mut slope);
    let d = slope.to_vec();
    assert!((d[0] - 0.25).abs() < 1e-6);
    assert!((d[1] - 0.880797 * 0.119203).abs() < 1e-5);
}
