use hypervector::bits::{BitVector, MAX_BITS};
use hypervector::generator::unpack_bits;
use hypervector::storage::{enforce_constraints, ConstraintError};

#[test]
fn bits_come_back_as_they_went_in() {
    let values: Vec<bool> = (0..37).map(|i| i % 3 == 0).collect();
    let vector = BitVector::from_bools(&values);
    assert_eq!(vector.len(), 37);
    for i in 0..37 {
        assert_eq!(vector.get(i), values[i]);
    }
}

#[test]
fn empty_vector_has_no_bits() {
    assert_eq!(BitVector::from_bools(&[]).len(), 0);
}

#[test]
fn mismatches_are_counted_across_words() {
    let a: Vec<bool> = (0..200).map(|i| i % 2 == 0).collect();
    let b: Vec<bool> = (0..200).map(|i| i % 5 == 0).collect();
    let expected = (0..200).filter(|i| a[*i] != b[*i]).count();
    let left = BitVector::from_bools(&a);
    let right = BitVector::from_bools(&b);
    assert_eq!(left.mismatches(&right), expected);
    assert_eq!(left.mismatches(&left), 0);
}

#[test]
fn clones_are_equal_and_independent() {
    let a = BitVector::from_bools(&[true, false, true]);
    let b = a.clone();
    assert_eq!(a, b);
    assert_ne!(a, BitVector::from_bools(&[true, false, false]));
}

#[test]
fn packed_bytes_are_read_lowest_bit_first() {
    let vector = unpack_bits(&[0b0000_0101, 0b1000_0001], 16);
    let set: Vec<usize> = (0..16).filter(|i| vector.get(*i)).collect();
    assert_eq!(set, vec![0, 2, 8, 15]);
    assert_eq!(unpack_bits(&[0xff], 3), BitVector::from_bools(&[true, true, true]));
}

#[test]
fn largest_size_is_an_eighth_of_the_address_space() {
    assert_eq!(MAX_BITS, usize::MAX >> 3);
}

#[test]
fn different_sizes_cannot_be_combined() {
    let error = enforce_constraints(3, 4).unwrap_err();
    assert_eq!(error, ConstraintError::DifferentSizes);
    assert_eq!(error.message(), "cannot operate on vectors with different sizes");
    assert_eq!(enforce_constraints(0, 4), Err(ConstraintError::DifferentSizes));
}

#[test]
fn empty_vectors_cannot_be_combined() {
    let error = enforce_constraints(0, 0).unwrap_err();
    assert_eq!(error, ConstraintError::Empty);
    assert_eq!(error.message(), "cannot operate on vectors with size 0");
}

#[test]
fn equal_sizes_can_be_combined() {
    assert_eq!(enforce_constraints(5, 5), Ok(()));
}
