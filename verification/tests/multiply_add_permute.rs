use hypervector::bits::BitVector;
use hypervector::multiply_add_permute::{MultiplyAddPermute, PlusMinusOnes};
use hypervector::resolution::{FloatResolution, IntResolution};
use hypervector::storage::ConstraintError;
use rand::rngs::StdRng;
use rand::SeedableRng;

#[derive(Clone, Copy, Debug, PartialEq)]
struct Double(f64);

impl FloatResolution for Double {
    fn zero() -> Self {
        Double(0.0)
    }
    fn one() -> Self {
        Double(1.0)
    }
    fn from_count(count: usize) -> Self {
        Double(count as f64)
    }
    fn from_integer(value: i128) -> Self {
        Double(value as f64)
    }
    fn plus(self, other: Self) -> Self {
        Double(self.0 + other.0)
    }
    fn minus(self, other: Self) -> Self {
        Double(self.0 - other.0)
    }
    fn times(self, other: Self) -> Self {
        Double(self.0 * other.0)
    }
    fn over(self, other: Self) -> Self {
        Double(self.0 / other.0)
    }
    fn squared(self) -> Self {
        Double(num_traits::pow(self.0, 2))
    }
    fn square_root(self) -> Self {
        Double(self.0.sqrt())
    }
    fn total(terms: &Vec<Self>) -> Self {
        Double(terms.iter().map(|term| term.0).sum())
    }
    fn equals(self, other: Self) -> bool {
        self.0 == other.0
    }
    fn exceeds(self, other: Self) -> bool {
        self.0 > other.0
    }
    fn at_least(self, other: Self) -> bool {
        self.0 >= other.0
    }
}

type Signed = MultiplyAddPermute;

fn ones(values: &[i8]) -> PlusMinusOnes {
    let flags: Vec<bool> = values.iter().map(|value| *value == 1).collect();
    PlusMinusOnes::from_bits(BitVector::from_bools(&flags))
}

fn elements(vector: &PlusMinusOnes) -> Vec<i8> {
    (0..vector.len()).map(|i| vector.index(i)).collect()
}

fn unnormalized(a: &Vec<isize>, b: &Vec<isize>) -> f64 {
    Signed::similarity_unnormalized::<Double>(a, b).0
}

#[test]
fn map_random_returns_expected_size() {
    let map = Signed::new(7);
    let hv = map.random(256);
    assert_eq!(hv.len(), 256);
}

#[test]
fn similarity_unnormalized_matches_expected_values() {
    let a: Vec<isize> = vec![3, 4, 0];
    let b_same: Vec<isize> = vec![3, 4, 0];
    let b_opposite: Vec<isize> = vec![-3, -4, 0];
    let b_orthogonal: Vec<isize> = vec![4, -3, 0];

    assert!((unnormalized(&a, &b_same) - 1.0).abs() < 1e-12);
    assert!((unnormalized(&a, &b_opposite) + 1.0).abs() < 1e-12);
    assert!(unnormalized(&a, &b_orthogonal).abs() < 1e-12);
}

#[test]
fn map_similarity_unnormalized_with_zero_is_zero() {
    assert_eq!(unnormalized(&vec![0, 0], &vec![1, 2]), 0.0);
}

#[test]
fn map_similarity_unnormalized_takes_the_largest_integers() {
    let a: Vec<i128> = vec![i128::MAX, i128::MIN];
    let result = MultiplyAddPermute::<i128>::similarity_unnormalized::<Double>(&a, &a);
    assert!((result.0 - 1.0).abs() < 1e-12);
}

#[test]
fn map_similarity_matches_expected_values() {
    let a = ones(&[1, 1, -1, -1]);
    assert_eq!(Signed::similarity::<Double>(&a, &a).0, 1.0);
    assert_eq!(Signed::similarity::<Double>(&a, &ones(&[-1, -1, 1, 1])).0, -1.0);
    assert_eq!(Signed::similarity::<Double>(&a, &ones(&[1, -1, -1, 1])).0, 0.0);
    assert_eq!(Signed::similarity::<Double>(&a, &ones(&[1, 1, -1, 1])).0, 0.5);
}

#[test]
fn map_similarity_agrees_with_the_accumulators() {
    let map = Signed::new(40);
    let a = map.random(64);
    let b = map.random(64);
    let direct = Signed::similarity::<Double>(&a, &b).0;
    let through = unnormalized(&Signed::denormalize(a), &Signed::denormalize(b));
    assert!((direct - through).abs() < 1e-12);
}

#[test]
fn map_bind_multiplies_signs() {
    let mut a = ones(&[1, 1, -1, -1]);
    Signed::bind(&mut a, &ones(&[1, -1, 1, -1]));
    assert_eq!(elements(&a), vec![1, -1, -1, 1]);
}

#[test]
fn map_binding_twice_gives_the_vector_back() {
    let map = Signed::new(41);
    let a = map.random(301);
    let b = map.random(301);
    let mut bound = a.clone();
    Signed::bind(&mut bound, &b);
    assert_ne!(bound, a);
    Signed::bind(&mut bound, &b);
    assert_eq!(bound, a);
}

#[test]
fn map_bound_vectors_count_only_their_own_elements() {
    let mut a = ones(&[1, -1, 1]);
    Signed::bind(&mut a, &ones(&[1, -1, 1]));
    assert_eq!(Signed::similarity::<Double>(&a, &ones(&[1, 1, 1])).0, 1.0);
    assert_eq!(Signed::denormalize(a), vec![1, 1, 1]);
}

#[test]
fn map_permute_rolls_right() {
    let mut a = ones(&[1, -1, 1, -1, 1]);
    Signed::permute(&mut a, 2);
    assert_eq!(elements(&a), vec![-1, 1, 1, -1, 1]);
    Signed::permute(&mut a, 3);
    assert_eq!(elements(&a), vec![1, -1, 1, -1, 1]);
}

#[test]
fn map_permute_distributes_over_bind() {
    let map = Signed::new(42);
    let a = map.random(50);
    let b = map.random(50);
    let mut bound = a.clone();
    Signed::bind(&mut bound, &b);
    Signed::permute(&mut bound, 17);
    let mut left = a.clone();
    Signed::permute(&mut left, 17);
    let mut right = b.clone();
    Signed::permute(&mut right, 17);
    Signed::bind(&mut left, &right);
    assert_eq!(bound, left);
}

#[test]
fn map_denormalize_unpacks_whole_and_partial_bytes() {
    for size in [0, 1, 7, 8, 9, 16, 21] {
        let flags: Vec<bool> = (0..size).map(|i| i % 3 == 1).collect();
        let vector = PlusMinusOnes::from_bits(BitVector::from_bools(&flags));
        let expected: Vec<isize> = flags.iter().map(|flag| if *flag { 1 } else { -1 }).collect();
        assert_eq!(Signed::denormalize(vector), expected);
    }
}

#[test]
fn map_normalize_takes_ties_as_plus_one() {
    let map = Signed::new(1);
    let vector = map.normalize(vec![5, 0, -1, -7]);
    assert_eq!(elements(&vector), vec![1, 1, -1, -1]);
}

#[test]
fn map_normalize_undoes_denormalize() {
    let map = Signed::new(43);
    let a = map.random(99);
    assert_eq!(map.normalize(Signed::denormalize(a.clone())), a);
}

#[test]
fn map_bundle_adds_signs() {
    let map = Signed::new(1);
    let mut accumulator: Vec<isize> = vec![0, 2, -3];
    map.bundle(&mut accumulator, &ones(&[1, -1, -1]));
    assert_eq!(accumulator, vec![1, 1, -4]);
}

#[test]
fn map_bundle_stops_at_the_shorter_vector() {
    let map = Signed::new(1);
    let mut accumulator: Vec<isize> = vec![0, 0, 0];
    map.bundle(&mut accumulator, &ones(&[1, -1]));
    assert_eq!(accumulator, vec![1, -1, 0]);
    map.bundle_with_accumulator(&mut accumulator, &vec![5]);
    assert_eq!(accumulator, vec![6, -1, 0]);
    map.bundle_with_accumulator(&mut accumulator, &vec![1, 1, 1, 1]);
    assert_eq!(accumulator, vec![7, 0, 1]);
}

#[test]
fn map_bundling_in_any_order_gives_the_same() {
    let map = Signed::new(44);
    let a = map.random(40);
    let b = map.random(40);
    let mut one = vec![0; 40];
    map.bundle(&mut one, &a);
    map.bundle(&mut one, &b);
    let mut two = vec![0; 40];
    map.bundle(&mut two, &b);
    map.bundle(&mut two, &a);
    assert_eq!(one, two);
    let mut three = Signed::denormalize(a);
    map.bundle_with_accumulator(&mut three, &Signed::denormalize(b));
    assert_eq!(one, three);
}

#[test]
fn map_accumulator_binding_changes_signs() {
    let mut accumulator: Vec<isize> = vec![3, -2, 0];
    Signed::bind_with_accumulator(&mut accumulator, &ones(&[-1, -1, 1]));
    assert_eq!(accumulator, vec![-3, 2, 0]);
    Signed::bind_with_accumulator(&mut accumulator, &ones(&[-1, -1, 1]));
    assert_eq!(accumulator, vec![3, -2, 0]);
}

#[test]
fn map_accumulator_binding_agrees_with_binding() {
    let map = Signed::new(45);
    let a = map.random(70);
    let b = map.random(70);
    let mut accumulator: Vec<isize> = Signed::denormalize(a.clone());
    Signed::bind_with_accumulator(&mut accumulator, &b);
    let mut bound = a.clone();
    Signed::bind(&mut bound, &b);
    assert_eq!(accumulator, Signed::denormalize(bound));
}

#[test]
fn map_accumulators_can_be_narrow() {
    let map = MultiplyAddPermute::<i8>::new(1);
    let mut accumulator: Vec<i8> = vec![126, -127];
    map.bundle(&mut accumulator, &ones(&[1, -1]));
    assert_eq!(accumulator, vec![127, -128]);
}

#[test]
fn map_clones_share_the_generator() {
    let one = Signed::new(46);
    let two = Signed::new(46);
    let shared = two.clone();
    one.random(30);
    shared.random(30);
    assert_eq!(one.random(30), two.random(30));
    assert_ne!(
        Signed::default().random(300),
        Signed::default().random(300)
    );
}

#[test]
fn plus_minus_ones_are_drawn_from_a_generator() {
    let mut one = StdRng::seed_from_u64(50);
    let mut two = StdRng::seed_from_u64(50);
    let vector = PlusMinusOnes::random(&mut one, 80);
    assert_eq!(vector.len(), 80);
    assert_eq!(vector, PlusMinusOnes::random(&mut two, 80));
    assert_ne!(vector, PlusMinusOnes::random(&mut two, 80));
}

#[test]
fn map_draws_as_a_bare_generator_of_the_seed_does() {
    let map = Signed::new(51);
    let mut rng = StdRng::seed_from_u64(51);
    for size in [1, 7, 8, 9, 64, 100] {
        assert_eq!(map.random(size), PlusMinusOnes::random(&mut rng, size));
        let mut accumulator: Vec<isize> = vec![0; 4];
        map.bundle(&mut accumulator, &ones(&[1, -1, 1, -1]));
        map.normalize(accumulator);
    }
}

#[test]
fn plus_minus_ones_can_be_drawn_under_a_lock() {
    let shared = parking_lot::RwLock::new(StdRng::seed_from_u64(52));
    let vector = PlusMinusOnes::random(&mut *shared.write(), 33);
    assert_eq!(vector, PlusMinusOnes::random(&mut StdRng::seed_from_u64(52), 33));
}

#[test]
fn map_similarity_unnormalized_is_symmetric() {
    let a: Vec<isize> = vec![3, -1, 2, 7];
    let b: Vec<isize> = vec![1, 4, -2, 5];
    assert_eq!(unnormalized(&a, &b), unnormalized(&b, &a));
}

#[test]
fn plus_minus_ones_serialize_to_one_and_zero() {
    let values: Vec<Double> = ones(&[1, -1, 1]).serialize();
    assert_eq!(values, vec![Double(1.0), Double(0.0), Double(1.0)]);
}

#[test]
fn plus_minus_ones_parse_signs() {
    let vector = PlusMinusOnes::parse(&[
        Double(0.5),
        Double(0.0),
        Double(-0.0),
        Double(-0.5),
        Double(f64::NAN),
    ]);
    assert_eq!(elements(&vector), vec![1, 1, 1, -1, -1]);
}

#[test]
fn plus_minus_ones_report_constraints() {
    let a = ones(&[1, -1]);
    assert_eq!(a.enforce_constraints(&ones(&[1, 1])), Ok(()));
    assert_eq!(
        a.enforce_constraints(&ones(&[1])),
        Err(ConstraintError::DifferentSizes)
    );
    assert_eq!(
        ones(&[]).enforce_constraints(&ones(&[])),
        Err(ConstraintError::Empty)
    );
}

#[test]
fn every_integer_type_counts_exactly() {
    assert_eq!(<i8 as IntResolution>::one().plus(126), 127);
    assert_eq!(<i16 as IntResolution>::negated(-32767), 32767);
    assert_eq!(<i32 as IntResolution>::widened(-5), -5);
    assert!(<i64 as IntResolution>::at_least(3, 3));
    assert!(!<i128 as IntResolution>::at_least(-1, 0));
    assert_eq!(<isize as IntResolution>::one(), 1);
}

#[test]
fn plus_minus_ones_come_back_as_plus_ones() {
    let vector = ones(&[1, -1, 1, -1, -1]);
    let values: Vec<Double> = vector.serialize();
    assert_eq!(elements(&PlusMinusOnes::parse(&values)), vec![1, 1, 1, 1, 1]);
}

#[test]
fn map_normalized_bundle_is_the_majority() {
    let map = Signed::new(3);
    let vectors = [
        ones(&[1, 1, 1, -1, -1]),
        ones(&[1, 1, -1, -1, 1]),
        ones(&[1, -1, -1, -1, 1]),
        ones(&[1, -1, -1, -1, -1]),
    ];
    for order in [[0, 1, 2, 3], [3, 1, 0, 2], [2, 3, 1, 0]] {
        let mut accumulator: Vec<isize> = Signed::denormalize(vectors[order[0]].clone());
        for k in &order[1..] {
            map.bundle(&mut accumulator, &vectors[*k]);
        }
        assert_eq!(accumulator, vec![4, 0, -2, -4, 0]);
        assert_eq!(elements(&map.normalize(accumulator)), vec![1, 1, -1, -1, 1]);
    }
}

#[test]
fn map_similarity_unnormalized_changes_sign_with_an_accumulator() {
    let a: Vec<isize> = vec![3, -1, 2];
    let b: Vec<isize> = vec![1, 4, -2];
    let turned: Vec<isize> = vec![-1, -4, 2];
    assert_eq!(unnormalized(&a, &turned), -unnormalized(&a, &b));
}

#[test]
fn map_similarity_unnormalized_is_kept_by_binding() {
    let mut a: Vec<isize> = vec![3, -1, 2];
    let mut b: Vec<isize> = vec![1, 4, -2];
    let before = unnormalized(&a, &b);
    let c = ones(&[-1, 1, -1]);
    Signed::bind_with_accumulator(&mut a, &c);
    Signed::bind_with_accumulator(&mut b, &c);
    assert_eq!(unnormalized(&a, &b), before);
}

#[test]
fn map_similarity_is_kept_by_binding_and_permuting() {
    let mut a = ones(&[1, -1, 1, 1, -1]);
    let mut b = ones(&[1, 1, 1, -1, -1]);
    let c = ones(&[-1, 1, -1, 1, 1]);
    let before = Signed::similarity::<Double>(&a, &b);
    assert_eq!(Signed::similarity::<Double>(&b, &a), before);
    Signed::bind(&mut a, &c);
    Signed::bind(&mut b, &c);
    Signed::permute(&mut a, 3);
    Signed::permute(&mut b, 3);
    assert_eq!(Signed::similarity::<Double>(&a, &b), before);
}

#[test]
fn map_default_is_seeded_at_random() {
    let (one, two) = (Signed::default(), Signed::default());
    assert_ne!(one.random(128), two.random(128));
}
