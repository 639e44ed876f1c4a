use neural::matrix::{Layout, Matrix};

struct Lcg(u64);

impl Lcg {
    fn next(&mut self) -> f32 {
        self.0 = self.0.wrapping_mul(6364136223846793005).wrapping_add(1442695040888963407);
        ((self.0 >> 40) as f32 / (1u64 << 24) as f32) * 2.0 - 1.0
    }
}

fn random_matrix(rng: &mut Lcg, rows: usize, columns: usize) -> Matrix<f32> {
    let v: Vec<f32> = (0..rows * columns).map(|_| rng.next()).collect();
    Matrix::from_flat(&v, rows, columns, Layout::RowMajor)
}

fn reference_product(a: &Matrix<f32>, b: &Matrix<f32>) -> Vec<Vec<f32>> {
    let (r, n) = a.size();
    let (_, c) = b.size();
    let mut out = vec![vec![0.0f32; c]; r];
    for i in 0..r {
        for j in 0..c {
            for k in 0..n {
                out[i][j] += a.get(i, k) * b.get(k, j);
            }
        }
    }
    out
}

#[test]
fn map_composition() {
    let mut rng = Lcg(7);
    let a = random_matrix(&mut rng, 3, 4);
    let f = |x: f32| 1.0 / (1.0 + (-x).exp());
    let g = |y: f32| y * (1.0 - y);
    let twice = a.map(&f).map(&g);
    let once = a.map(&|x: f32| g(f(x)));
    for (p, q) in twice.to_vec().iter().zip(once.to_vec().iter()) {
        assert!((p - q).abs() < 1e-6);
    }
}

#[test]
fn backend_equivalence_float() {
    let mut rng = Lcg(42);
    let a = random_matrix(&mut rng, 4, 5);
    let b = random_matrix(&mut rng, 5, 3);
    let plus = |x: f32, y: f32| x + y;
    let times = |x: f32, y: f32| x * y;
    let p = a.product_with(&b, 0.0, &plus, &times);
    assert_eq!(p.size(), (4, 3));
    let mut into = Matrix::filled(4, 3, 9.0f32);
    a.product_into_with(&b, &mut into, 0.0, &plus, &times);
    let reference = reference_product(&a, &b);
    for i in 0..4 {
        for j in 0..3 {
            assert!((p.get(i, j) - reference[i][j]).abs() < 1e-4);
            assert!((into.get(i, j) - reference[i][j]).abs() < 1e-4);
        }
    }
}

#[test]
fn apply_combine_and_zip() {
    let mut a = Matrix::from_flat(&[1.0f32, 2.0, 3.0, 4.0], 2, 2, Layout::RowMajor);
    let b = Matrix::from_flat(&[0.5f32, 0.5, 2.0, 2.0], 2, 2, Layout::RowMajor);
    let z = a.zip(&b, &|x: f32, y: f32| x - y);
    assert_eq!(z.to_vec(), vec![0.5, 1.5, 1.0, 2.0]);
    a.combine(&b, &|x: f32, y: f32| x * y);
    assert_eq!(a.to_vec(), vec![0.5, 1.0, 6.0, 8.0]);
    a.apply(&|x: f32| x + 1.0);
    assert_eq!(a.to_vec(), vec![1.5, 2.0, 7.0, 9.0]);
    let mut out = Matrix::filled(2, 2, 0.0f32);
    a.map_into(&|x: f32| x * 2.0, &mut out);
    assert_eq!(out.to_vec(), vec![3.0, 4.0, 14.0, 18.0]);
}
