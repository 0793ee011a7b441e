use hypervector::holographic::HolographicReducedRepresentation;
use hypervector::resolution::{Complex, DrawnResolution, FloatResolution, FourierResolution};
use parking_lot::RwLock;
use rand::rngs::StdRng;
use rand::RngExt;
use rustfft::FftPlanner;

#[derive(Clone, Copy, Debug, PartialEq)]
struct Double(f64);

impl FloatResolution for Double {
    fn zero() -> Self {
        Double(0.0)
    }
    fn one() -> Self {
        Double(1.0)
    }
    fn from_count(count: usize) -> Self {
        Double(count as f64)
    }
    fn from_integer(value: i128) -> Self {
        Double(value as f64)
    }
    fn plus(self, other: Self) -> Self {
        Double(self.0 + other.0)
    }
    fn minus(self, other: Self) -> Self {
        Double(self.0 - other.0)
    }
    fn times(self, other: Self) -> Self {
        Double(self.0 * other.0)
    }
    fn over(self, other: Self) -> Self {
        Double(self.0 / other.0)
    }
    fn squared(self) -> Self {
        Double(num_traits::pow(self.0, 2))
    }
    fn square_root(self) -> Self {
        Double(self.0.sqrt())
    }
    fn total(terms: &Vec<Self>) -> Self {
        Double(terms.iter().map(|term| term.0).sum())
    }
    fn equals(self, other: Self) -> bool {
        self.0 == other.0
    }
    fn exceeds(self, other: Self) -> bool {
        self.0 > other.0
    }
    fn at_least(self, other: Self) -> bool {
        self.0 >= other.0
    }
}

impl DrawnResolution<StdRng> for Double {
    fn draw(generator: &RwLock<StdRng>, count: usize) -> Vec<Self> {
        let mut rng = generator.write();
        (0..count)
            .map(|_| Double(rng.random_range(-1.0..1.0)))
            .collect()
    }
}

fn outside(values: Vec<Complex<Double>>) -> Vec<rustfft::num_complex::Complex<f64>> {
    values
        .iter()
        .map(|value| rustfft::num_complex::Complex::new(value.re.0, value.im.0))
        .collect()
}

fn inside(values: Vec<rustfft::num_complex::Complex<f64>>) -> Vec<Complex<Double>> {
    values
        .iter()
        .map(|value| Complex {
            re: Double(value.re),
            im: Double(value.im),
        })
        .collect()
}

impl FourierResolution for Double {
    fn forward_transform(values: Vec<Complex<Self>>) -> Vec<Complex<Self>> {
        let mut buffer = outside(values);
        FftPlanner::new()
            .plan_fft_forward(buffer.len())
            .process(&mut buffer);
        inside(buffer)
    }
    fn inverse_transform(values: Vec<Complex<Self>>) -> Vec<Complex<Self>> {
        let mut buffer = outside(values);
        FftPlanner::new()
            .plan_fft_inverse(buffer.len())
            .process(&mut buffer);
        inside(buffer)
    }
}

type Hrr = HolographicReducedRepresentation<Double, StdRng>;

fn doubles(values: &[f64]) -> Vec<Double> {
    values.iter().map(|value| Double(*value)).collect()
}

fn length(values: &[Double]) -> f64 {
    values.iter().map(|value| value.0 * value.0).sum::<f64>().sqrt()
}

#[test]
fn hrr_random_returns_expected_size() {
    let hrr = Hrr::new(7);
    let hv = hrr.random(256);
    assert_eq!(hv.len(), 256);
}

#[test]
fn bind_is_circular_convolution() {
    let a = doubles(&[0.2, -0.4, 0.1, 0.6, -0.3]);
    let b = doubles(&[-0.5, 0.7, 0.2, -0.1, 0.4]);

    let mut bound = a.clone();
    Hrr::bind(&mut bound, &b);
    let expected = vec![-0.36, 0.26, -0.02, -0.45, 0.71];

    assert_eq!(bound.len(), expected.len());
    for (actual, expected) in bound.iter().zip(expected.iter()) {
        assert!((actual.0 - expected).abs() < 1e-12);
    }
}

#[test]
fn inverse_matches_stable_hrr_inverse() {
    let mut a = vec![0.2, -0.4, 0.1, 0.6, -0.3];
    HolographicReducedRepresentation::<f64>::inverse(&mut a);
    assert_eq!(a, vec![0.2, -0.3, 0.6, 0.1, -0.4]);
}

#[test]
fn hrr_cosine_similarity_matches_expected_values() {
    let a = doubles(&[1.0, 2.0, 3.0]);
    let b_same = doubles(&[1.0, 2.0, 3.0]);
    let b_opposite = doubles(&[-1.0, -2.0, -3.0]);
    let b_orthogonal = doubles(&[2.0, -1.0, 0.0]);

    assert!((Hrr::similarity(&a, &b_same).0 - 1.0).abs() < 1e-12);
    assert!((Hrr::similarity(&a, &b_opposite).0 + 1.0).abs() < 1e-12);
    assert!(Hrr::similarity(&a, &b_orthogonal).0.abs() < 1e-12);
}

#[test]
fn hrr_similarity_unnormalized_matches_similarity() {
    let a = doubles(&[1.0, 2.0, 3.0]);
    let b = doubles(&[2.0, -1.0, 0.0]);

    assert_eq!(
        Hrr::similarity_unnormalized(&a, &b).0,
        Hrr::similarity(&a, &b).0
    );
}

#[test]
fn hrr_random_vectors_have_unit_length() {
    let hv = Hrr::new(8).random(100);
    assert!((length(&hv) - 1.0).abs() < 1e-12);
    assert_eq!(Hrr::new(8).random(0).len(), 0);
}

#[test]
fn hrr_random_follows_the_seed() {
    assert_eq!(Hrr::new(9).random(20), Hrr::new(9).random(20));
    assert_ne!(Hrr::new(9).random(20), Hrr::new(10).random(20));
    assert_ne!(Hrr::default().random(20), Hrr::default().random(20));
}

#[test]
fn hrr_clones_share_the_generator() {
    let one = Hrr::new(11);
    let two = Hrr::new(11);
    let shared = two.clone();
    one.random(5);
    shared.random(5);
    assert_eq!(one.random(5), two.random(5));
}

#[test]
fn hrr_scaling_leaves_zero_alone() {
    let zero = doubles(&[0.0, 0.0]);
    assert_eq!(Hrr::scale_to_unit(zero.clone()), zero);
    assert_eq!(Hrr::scale_to_unit(doubles(&[3.0, 4.0])), doubles(&[0.6, 0.8]));
}

#[test]
fn hrr_normalize_scales_to_unit_length() {
    let hrr = Hrr::new(1);
    assert_eq!(hrr.normalize(doubles(&[3.0, 4.0])), doubles(&[0.6, 0.8]));
    assert_eq!(
        hrr.normalize(doubles(&[0.0, 0.0, 0.0])),
        doubles(&[0.0, 0.0, 0.0])
    );
    assert_eq!(Hrr::norm(&doubles(&[3.0, 4.0])), Double(5.0));
}

#[test]
fn hrr_normalize_keeps_what_is_not_a_number() {
    let hrr = Hrr::new(1);
    let out = hrr.normalize(doubles(&[f64::NAN, 1.0]));
    assert!(out[0].0.is_nan() && out[1].0.is_nan());
    let kept = Hrr::scale_to_unit(doubles(&[f64::NAN, 1.0]));
    assert!(kept[0].0.is_nan() && kept[1].0 == 1.0);
}

#[test]
fn hrr_denormalize_keeps_the_vector() {
    let a = doubles(&[0.5, -0.5]);
    assert_eq!(Hrr::denormalize(a.clone()), a);
}

#[test]
fn hrr_bundle_adds_components() {
    let hrr = Hrr::new(1);
    let mut accumulator = doubles(&[1.0, 2.0, 3.0]);
    hrr.bundle(&mut accumulator, &doubles(&[10.0, 20.0, 30.0]));
    assert_eq!(accumulator, doubles(&[11.0, 22.0, 33.0]));
    hrr.bundle_with_accumulator(&mut accumulator, &doubles(&[-1.0, -2.0, -3.0]));
    assert_eq!(accumulator, doubles(&[10.0, 20.0, 30.0]));
}

#[test]
fn hrr_bundle_stops_at_the_shorter_vector() {
    let hrr = Hrr::new(1);
    let mut accumulator = doubles(&[1.0, 2.0, 3.0]);
    hrr.bundle(&mut accumulator, &doubles(&[1.0]));
    assert_eq!(accumulator, doubles(&[2.0, 2.0, 3.0]));
    hrr.bundle(&mut accumulator, &doubles(&[1.0, 1.0, 1.0, 9.0]));
    assert_eq!(accumulator, doubles(&[3.0, 3.0, 4.0]));
}

#[test]
fn hrr_binding_with_the_unit_impulse_changes_nothing() {
    let a = doubles(&[0.25, -0.5, 0.75, 1.0, 0.125]);
    let mut bound = a.clone();
    Hrr::bind_with_accumulator(&mut bound, &doubles(&[1.0, 0.0, 0.0, 0.0, 0.0]));
    for (actual, expected) in bound.iter().zip(a.iter()) {
        assert!((actual.0 - expected.0).abs() < 1e-12);
    }
}

#[test]
fn hrr_binding_agrees_with_the_convolution_sum() {
    let hrr = Hrr::new(30);
    let a = hrr.random(12);
    let b = hrr.random(12);
    let out = Hrr::bind_values(&a, &b);
    for i in 0..12 {
        let sum: f64 = (0..12).map(|j| a[j].0 * b[(i + 12 - j) % 12].0).sum();
        assert!((out[i].0 - sum).abs() < 1e-12);
    }
}

#[test]
fn hrr_permute_rolls_right() {
    let mut a = vec![1, 2, 3, 4, 5];
    HolographicReducedRepresentation::<i32>::permute(&mut a, 2);
    assert_eq!(a, vec![4, 5, 1, 2, 3]);
    HolographicReducedRepresentation::<i32>::permute(&mut a, 8);
    assert_eq!(a, vec![1, 2, 3, 4, 5]);
    HolographicReducedRepresentation::<i32>::permute(&mut a, 0);
    assert_eq!(a, vec![1, 2, 3, 4, 5]);
}

#[test]
fn hrr_permute_and_inverse_accept_nothing() {
    let mut a: Vec<f64> = vec![];
    HolographicReducedRepresentation::<f64>::permute(&mut a, 4);
    HolographicReducedRepresentation::<f64>::inverse(&mut a);
    assert!(a.is_empty());
}

#[test]
fn hrr_inverse_twice_gives_the_vector_back() {
    let a = vec![1, 2, 3, 4, 5, 6];
    let mut b = a.clone();
    HolographicReducedRepresentation::<i32>::inverse(&mut b);
    assert_eq!(b, vec![1, 6, 5, 4, 3, 2]);
    HolographicReducedRepresentation::<i32>::inverse(&mut b);
    assert_eq!(b, a);
}

#[test]
fn hrr_inverse_of_a_permuted_vector_is_permuted_back() {
    let a = vec![1, 2, 3, 4, 5, 6, 7];
    let mut moved = a.clone();
    HolographicReducedRepresentation::<i32>::permute(&mut moved, 3);
    HolographicReducedRepresentation::<i32>::inverse(&mut moved);
    HolographicReducedRepresentation::<i32>::permute(&mut moved, 3);
    let mut inverse = a.clone();
    HolographicReducedRepresentation::<i32>::inverse(&mut inverse);
    assert_eq!(moved, inverse);
}

#[test]
fn hrr_similarity_with_zero_is_zero() {
    let a = doubles(&[1.0, 2.0]);
    let zero = doubles(&[0.0, 0.0]);
    assert_eq!(Hrr::similarity(&a, &zero).0, 0.0);
}

fn bound(a: &Vec<Double>, b: &Vec<Double>) -> Vec<Double> {
    let mut out = a.clone();
    Hrr::bind(&mut out, b);
    out
}

fn assert_close(actual: &[Double], expected: &[Double]) {
    assert_eq!(actual.len(), expected.len());
    for (x, y) in actual.iter().zip(expected.iter()) {
        assert!((x.0 - y.0).abs() < 1e-12, "{:?} {:?}", actual, expected);
    }
}

#[test]
fn hrr_binding_is_commutative_and_associative() {
    let a = doubles(&[0.2, -0.4, 0.1, 0.6]);
    let b = doubles(&[-0.5, 0.7, 0.2, -0.1]);
    let c = doubles(&[1.5, 0.0, -0.25, 0.3]);
    assert_close(&bound(&a, &b), &bound(&b, &a));
    assert_close(&bound(&bound(&a, &b), &c), &bound(&a, &bound(&b, &c)));
}

#[test]
fn hrr_binding_distributes_over_bundling() {
    let hrr = Hrr::new(1);
    let a = doubles(&[0.2, -0.4, 0.1]);
    let b = doubles(&[-0.5, 0.7, 0.2]);
    let c = doubles(&[1.5, 0.0, -0.25]);
    let mut sum = a.clone();
    hrr.bundle(&mut sum, &b);
    let mut expected = bound(&a, &c);
    hrr.bundle(&mut expected, &bound(&b, &c));
    assert_close(&bound(&sum, &c), &expected);
}

#[test]
fn hrr_binding_a_permuted_vector_permutes_the_binding() {
    let a = doubles(&[0.2, -0.4, 0.1, 0.6, -0.3]);
    let b = doubles(&[-0.5, 0.7, 0.2, -0.1, 0.4]);
    let mut moved = a.clone();
    Hrr::permute(&mut moved, 8);
    let mut expected = bound(&a, &b);
    Hrr::permute(&mut expected, 8);
    assert_close(&bound(&moved, &b), &expected);
}

#[test]
fn hrr_inverse_undoes_binding_with_a_shifted_impulse() {
    let a = doubles(&[0.2, -0.4, 0.1, 0.6, -0.3]);
    let b = doubles(&[0.0, 0.0, 1.0, 0.0, 0.0]);
    let mut inverse = b.clone();
    Hrr::inverse(&mut inverse);
    assert_close(&bound(&bound(&a, &b), &inverse), &a);
}

#[test]
fn hrr_binding_with_the_inverse_starts_with_the_scalar_product() {
    let a = doubles(&[1.0, 2.0, 3.0, 4.0]);
    let mut inverse = doubles(&[-1.0, 0.5, 2.0, 1.0]);
    Hrr::inverse(&mut inverse);
    assert!((bound(&a, &inverse)[0].0 - 10.0).abs() < 1e-12);
}

#[test]
fn hrr_accumulator_binding_is_binding() {
    let a = doubles(&[0.2, -0.4, 0.1]);
    let b = doubles(&[-0.5, 0.7, 0.2]);
    let mut accumulator = a.clone();
    Hrr::bind_with_accumulator(&mut accumulator, &b);
    assert_close(&accumulator, &bound(&a, &b));
}

#[test]
fn hrr_similarity_is_symmetric_and_ignores_length() {
    let a = doubles(&[1.0, 2.0, 2.0]);
    let b = doubles(&[2.0, 1.0, 2.0]);
    let longer = doubles(&[4.0, 2.0, 4.0]);
    let expected = 8.0 / 9.0;
    assert!((Hrr::similarity(&a, &b).0 - expected).abs() < 1e-12);
    assert!((Hrr::similarity(&b, &a).0 - expected).abs() < 1e-12);
    assert!((Hrr::similarity(&a, &longer).0 - expected).abs() < 1e-12);
}

#[test]
fn hrr_random_components_differ() {
    let hv = Hrr::new(12).random(16);
    for i in 1..hv.len() {
        assert_ne!(hv[i], hv[0]);
    }
}

#[test]
fn hrr_binding_keeps_the_length() {
    for n in 1..20 {
        let hrr = Hrr::new(13);
        assert_eq!(bound(&hrr.random(n), &hrr.random(n)).len(), n);
    }
}

#[test]
fn hrr_binding_with_the_inverse_is_the_adjoint() {
    let a = doubles(&[0.2, -0.4, 0.1, 0.6, -0.3]);
    let b = doubles(&[-0.5, 0.7, 0.2, -0.1, 0.4]);
    let c = doubles(&[0.9, 0.3, -0.8, 0.5, 0.1]);
    let mut inverse = b.clone();
    Hrr::inverse(&mut inverse);
    let dot = |x: &[Double], y: &[Double]| -> f64 {
        x.iter().zip(y.iter()).map(|(x, y)| x.0 * y.0).sum()
    };
    let left = dot(&bound(&a, &b), &c);
    assert!((left - dot(&a, &bound(&c, &inverse))).abs() < 1e-12);
}

#[test]
fn hrr_binding_with_a_shifted_impulse_permutes() {
    let a = doubles(&[0.2, -0.4, 0.1, 0.6, -0.3]);
    for shifts in 0..5 {
        let mut impulse = doubles(&[0.0, 0.0, 0.0, 0.0, 0.0]);
        impulse[shifts] = Double(1.0);
        let mut moved = a.clone();
        Hrr::permute(&mut moved, shifts);
        assert_close(&bound(&a, &impulse), &moved);
    }
}

#[test]
fn hrr_normalizing_twice_changes_nothing() {
    let hrr = Hrr::new(14);
    let once = hrr.normalize(doubles(&[3.0, 0.0, -4.0]));
    assert_close(&once, &doubles(&[0.6, 0.0, -0.8]));
    assert_close(&hrr.normalize(once.clone()), &once);
}

#[test]
fn hrr_draws_lie_in_range() {
    let generator = RwLock::new(<StdRng as rand::SeedableRng>::seed_from_u64(15));
    let draws = Double::draw(&generator, 1000);
    assert_eq!(draws.len(), 1000);
    let low = Double::zero().minus(Double::one());
    for draw in &draws {
        assert!(draw.at_least(low) && Double::one().exceeds(*draw));
    }
}
