use hypervector::binary_spatter::{majority_bundle, BinarySpatterCode};
use hypervector::bits::BitVector;
use hypervector::resolution::FloatResolution;

#[derive(Clone, Copy, Debug, PartialEq)]
struct Double(f64);

impl FloatResolution for Double {
    fn zero() -> Self {
        Double(0.0)
    }
    fn one() -> Self {
        Double(1.0)
    }
    fn from_count(count: usize) -> Self {
        Double(count as f64)
    }
    fn from_integer(value: i128) -> Self {
        Double(value as f64)
    }
    fn plus(self, other: Self) -> Self {
        Double(self.0 + other.0)
    }
    fn minus(self, other: Self) -> Self {
        Double(self.0 - other.0)
    }
    fn times(self, other: Self) -> Self {
        Double(self.0 * other.0)
    }
    fn over(self, other: Self) -> Self {
        Double(self.0 / other.0)
    }
    fn squared(self) -> Self {
        Double(num_traits::pow(self.0, 2))
    }
    fn square_root(self) -> Self {
        Double(self.0.sqrt())
    }
    fn total(terms: &Vec<Self>) -> Self {
        Double(terms.iter().map(|term| term.0).sum())
    }
    fn equals(self, other: Self) -> bool {
        self.0 == other.0
    }
    fn exceeds(self, other: Self) -> bool {
        self.0 > other.0
    }
    fn at_least(self, other: Self) -> bool {
        self.0 >= other.0
    }
}

type Bsc = BinarySpatterCode;

fn bits(values: &[u8]) -> BitVector {
    let flags: Vec<bool> = values.iter().map(|value| *value == 1).collect();
    BitVector::from_bools(&flags)
}

fn flags(vector: &BitVector) -> Vec<bool> {
    (0..vector.len()).map(|i| vector.get(i)).collect()
}

fn similarity(a: &BitVector, b: &BitVector) -> f64 {
    Bsc::similarity::<Double>(a, b).0
}

#[test]
fn bsc_random_returns_expected_size() {
    let bsc = Bsc::new(7);
    let hv = bsc.random(256);
    assert_eq!(hv.len(), 256);
}

#[test]
fn bind_behaves_like_xor() {
    let a = bits(&[1, 0, 1, 0]);
    let b = bits(&[1, 1, 0, 0]);
    let mut bound = a.clone();
    Bsc::bind(&mut bound, &b);

    assert_eq!(bound, bits(&[0, 1, 1, 0]));
}

#[test]
fn bundle_uses_majority_and_random_tiebreaks() {
    let bsc = Bsc::new(11);
    let random_source = Bsc::new(11);
    let a = bits(&[1, 0, 1, 0, 1, 0]);
    let b = bits(&[1, 1, 0, 0, 0, 0]);

    let mut bundled = a.clone();
    bsc.bundle(&mut bundled, &b);
    let random_bits = random_source.random(6);
    let expected: Vec<bool> = flags(&a)
        .iter()
        .zip(flags(&b).iter())
        .zip(flags(&random_bits).iter())
        .map(
            |((left, right), random)| {
                if *left == *right {
                    *left
                } else {
                    *random
                }
            },
        )
        .collect();

    assert_eq!(bundled, BitVector::from_bools(&expected));
}

#[test]
fn permutation_rolls_right() {
    let mut a = bits(&[1, 0, 1, 0, 1]);
    Bsc::permute(&mut a, 2);

    assert_eq!(a, bits(&[0, 1, 1, 0, 1]));
}

#[test]
fn bsc_cosine_similarity_matches_expected_values() {
    let a = bits(&[1, 1, 0, 0]);
    let b_same = bits(&[1, 1, 0, 0]);
    let b_opposite = bits(&[0, 0, 1, 1]);
    let b_half = bits(&[1, 0, 0, 1]);

    assert!((similarity(&a, &b_same) - 1.0).abs() < 1e-12);
    assert!((similarity(&a, &b_opposite) + 1.0).abs() < 1e-12);
    assert!(similarity(&a, &b_half).abs() < 1e-12);
}

#[test]
fn bsc_similarity_unnormalized_matches_similarity() {
    let a = bits(&[1, 1, 0, 0]);
    let b = bits(&[1, 0, 0, 1]);

    assert_eq!(
        Bsc::similarity_unnormalized::<Double>(&a, &b).0,
        similarity(&a, &b)
    );
}

#[test]
fn bsc_similarity_counts_each_mismatch_twice() {
    let a = bits(&[1, 1, 0, 0, 1, 0, 1, 1]);
    let b = bits(&[1, 0, 0, 0, 1, 0, 1, 1]);
    assert_eq!(similarity(&a, &b), 0.75);
    assert_eq!(a.mismatches(&b), 1);
}

#[test]
fn bsc_similarity_is_symmetric() {
    let bsc = Bsc::new(5);
    let a = bsc.random(100);
    let b = bsc.random(100);
    assert_eq!(similarity(&a, &b), similarity(&b, &a));
}

#[test]
fn bsc_binding_twice_gives_the_vector_back() {
    let bsc = Bsc::new(3);
    let a = bsc.random(1001);
    let b = bsc.random(1001);
    let mut bound = a.clone();
    Bsc::bind(&mut bound, &b);
    assert_ne!(bound, a);
    Bsc::bind(&mut bound, &b);
    assert_eq!(bound, a);
}

#[test]
fn bsc_binding_is_commutative_and_associative() {
    let bsc = Bsc::new(4);
    let a = bsc.random(77);
    let b = bsc.random(77);
    let c = bsc.random(77);
    let mut ab = a.clone();
    Bsc::bind(&mut ab, &b);
    let mut ba = b.clone();
    Bsc::bind(&mut ba, &a);
    assert_eq!(ab, ba);
    Bsc::bind(&mut ab, &c);
    let mut bc = b.clone();
    Bsc::bind(&mut bc, &c);
    let mut a_bc = a.clone();
    Bsc::bind(&mut a_bc, &bc);
    assert_eq!(ab, a_bc);
}

#[test]
fn bsc_binding_keeps_mismatches() {
    let bsc = Bsc::new(6);
    let a = bsc.random(64);
    let b = bsc.random(64);
    let c = bsc.random(64);
    let mut ac = a.clone();
    Bsc::bind_with_accumulator(&mut ac, &c);
    let mut bc = b.clone();
    Bsc::bind_with_accumulator(&mut bc, &c);
    assert_eq!(ac.mismatches(&bc), a.mismatches(&b));
}

#[test]
fn bsc_permuting_on_to_the_length_gives_the_vector_back() {
    let bsc = Bsc::new(8);
    let a = bsc.random(130);
    let mut moved = a.clone();
    Bsc::permute(&mut moved, 100);
    assert_ne!(moved, a);
    Bsc::permute(&mut moved, 30);
    assert_eq!(moved, a);
    Bsc::permute(&mut moved, 260);
    assert_eq!(moved, a);
}

#[test]
fn bsc_permuting_by_more_than_the_length_wraps() {
    let mut a = bits(&[1, 0, 0]);
    Bsc::permute(&mut a, 7);
    assert_eq!(a, bits(&[0, 1, 0]));
}

#[test]
fn bsc_permuting_nothing_leaves_nothing() {
    let mut a = bits(&[]);
    Bsc::permute(&mut a, 3);
    assert_eq!(a.len(), 0);
}

#[test]
fn bsc_majority_takes_the_tiebreaker_where_votes_differ() {
    let mut a = bits(&[1, 0, 1, 0]);
    majority_bundle(&mut a, &bits(&[1, 1, 0, 0]), &bits(&[0, 1, 0, 1]));
    assert_eq!(a, bits(&[1, 1, 0, 0]));
}

#[test]
fn bsc_majority_reads_a_short_vector_as_unset_at_the_end() {
    let mut a = bits(&[1, 1, 1, 0]);
    majority_bundle(&mut a, &bits(&[1, 0]), &bits(&[0, 1]));
    assert_eq!(a, bits(&[1, 1, 0, 0]));
}

#[test]
fn bsc_bundling_a_vector_with_itself_keeps_it() {
    let bsc = Bsc::new(9);
    let a = bsc.random(90);
    let mut bundled = a.clone();
    bsc.bundle(&mut bundled, &a);
    assert_eq!(bundled, a);
    bsc.bundle_with_accumulator(&mut bundled, &a);
    assert_eq!(bundled, a);
}

#[test]
fn bsc_bundle_lies_between_its_vectors() {
    let bsc = Bsc::new(10);
    let a = bsc.random(500);
    let b = bsc.random(500);
    let mut bundled = a.clone();
    bsc.bundle(&mut bundled, &b);
    assert_eq!(
        a.mismatches(&bundled) + bundled.mismatches(&b),
        a.mismatches(&b)
    );
}

#[test]
fn bsc_accumulators_are_the_vectors() {
    let bsc = Bsc::new(12);
    let a = bsc.random(33);
    let accumulator = Bsc::denormalize(a.clone());
    assert_eq!(accumulator, a);
    assert_eq!(bsc.normalize(accumulator), a);
}

#[test]
fn bsc_same_seed_gives_the_same_vectors() {
    let one = Bsc::new(20);
    let two = Bsc::new(20);
    assert_eq!(one.random(200), two.random(200));
    assert_eq!(one.random(200), two.random(200));
    assert_ne!(one.random(200), Bsc::new(21).random(200));
}

#[test]
fn bsc_clones_share_the_generator() {
    let one = Bsc::new(22);
    let two = Bsc::new(22);
    let shared = two.clone();
    one.random(64);
    shared.random(64);
    assert_eq!(one.random(64), two.random(64));
}

#[test]
fn bsc_default_is_seeded_at_random() {
    let one = Bsc::default();
    let two = Bsc::default();
    assert_ne!(one.random(512), two.random(512));
}

#[test]
fn bsc_random_vectors_hold_both_bits() {
    let hv = Bsc::new(23).random(1000);
    let ones = flags(&hv).iter().filter(|bit| **bit).count();
    assert!(ones > 350 && ones < 650);
    assert_eq!(Bsc::new(23).random(0).len(), 0);
    assert_eq!(Bsc::new(23).random(13).len(), 13);
}

#[test]
fn bsc_similarity_is_kept_by_binding_and_permuting() {
    let mut a = bits(&[1, 0, 1, 1, 0]);
    let mut b = bits(&[1, 1, 1, 0, 0]);
    let c = bits(&[0, 1, 0, 1, 1]);
    let before = similarity(&a, &b);
    Bsc::bind(&mut a, &c);
    Bsc::bind(&mut b, &c);
    Bsc::permute(&mut a, 2);
    Bsc::permute(&mut b, 2);
    assert_eq!(similarity(&a, &b), before);
}
