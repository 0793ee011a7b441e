//! Multiply-add-permute.

use std::marker::PhantomData;
use std::sync::Arc;

use parking_lot::RwLock;
use rand::rngs::StdRng;
use vstd::prelude::*;

use crate::arithmetic::{accumulated, agreement, compute_agreement, compute_quotient};
use crate::arithmetic::{conversion, converted, lemma_accumulated_push, partial_sums, products};
use crate::arithmetic::quotient;
use crate::bits::{BitVector, MAX_BITS};
use crate::generator::{draw_seed, drawn, next_bits, random_bits, random_number, RandomSource};
use crate::model::{mismatches, packed_bit, permuted, sign, sign_products, signs, signs_of, sums};
use crate::model::{unpacked, xnor_bits};
use crate::resolution::{FloatResolution, IntResolution};
use crate::storage::{combinable, ConstraintError};

verus! {

/// Vector storage where each element is either +1 or -1, represented as a bit vector.
#[derive(Debug, PartialEq, Eq, Hash)]
pub struct PlusMinusOnes {
    bits: BitVector,
}

impl View for PlusMinusOnes {
    type V = Seq<bool>;

    /// Whether each element is +1.
    closed spec fn view(&self) -> Seq<bool> {
        self.bits@
    }
}

impl Clone for PlusMinusOnes {
    fn clone(&self) -> (copy: Self)
        ensures
            copy@ == self@,
    {
        PlusMinusOnes { bits: self.bits.clone() }
    }
}

/// Each of the numbers is one where the bit at the same position is set, zero where it is not.
pub open spec fn serialized<F: FloatResolution>(bits: Seq<bool>, values: Seq<F>) -> bool {
    &&& values.len() == bits.len()
    &&& forall|i: int|
        0 <= i < values.len() ==> if bits[i] {
            call_ensures(F::one, (), #[trigger] values[i])
        } else {
            call_ensures(F::zero, (), values[i])
        }
}

/// Each of the bits says whether the number at the same position is no less than `zero`.
pub open spec fn parsed_against<F: FloatResolution>(
    values: Seq<F>,
    zero: F,
    bits: Seq<bool>,
) -> bool {
    &&& call_ensures(F::zero, (), zero)
    &&& bits.len() == values.len()
    &&& forall|i: int|
        0 <= i < bits.len() ==> call_ensures(F::at_least, (values[i], zero), #[trigger] bits[i])
}

/// Each of the bits says whether the number at the same position is no less than zero.
pub open spec fn parsed<F: FloatResolution>(values: Seq<F>, bits: Seq<bool>) -> bool {
    exists|zero: F| #[trigger] parsed_against(values, zero, bits)
}

impl PlusMinusOnes {
    /// The vector with +1 where a bit is set and -1 elsewhere.
    pub fn from_bits(bits: BitVector) -> (vector: Self)
        ensures
            vector@ == bits@,
    {
        PlusMinusOnes { bits }
    }

    /// The number of elements.
    pub fn len(&self) -> (len: usize)
        ensures
            len == self@.len(),
            len <= MAX_BITS,
    {
        self.bits.len()
    }

    /// Tests whether the two vectors can be combined.
    pub fn enforce_constraints(&self, other: &Self) -> (result: Result<(), ConstraintError>)
        ensures
            result is Ok <==> combinable(self@.len(), other@.len()),
            result == Err::<(), _>(ConstraintError::DifferentSizes) <==> self@.len()
                != other@.len(),
            result == Err::<(), _>(ConstraintError::Empty) <==> self@.len() == 0 && other@.len()
                == 0,
    {
        crate::storage::enforce_constraints(self.len(), other.len())
    }

    /// The elements as numbers: one for +1, zero for -1.
    pub fn serialize<F: FloatResolution>(&self) -> (values: Vec<F>)
        ensures
            serialized(self@, values@),
    {
        let len = self.len();
        let mut values: Vec<F> = Vec::new();
        for i in 0..len
            invariant
                len == self@.len(),
                serialized(self@.take(i as int), values@),
        {
            if self.bits.get(i) {
                values.push(F::one());
            } else {
                values.push(F::zero());
            }
        }
        values
    }

    /// A random vector.
    pub fn random<Rng: RandomSource>(rng: &mut Rng, size: usize) -> (vector: Self)
        requires
            size <= MAX_BITS,
        ensures
            vector@.len() == size,
            exists|source: &mut Rng, count: usize, bytes: Vec<u8>|
                *source == *old(rng) && *final(source) == *final(rng) && count == (size + 7) / 8
                    && #[trigger] call_ensures(Rng::next_bytes, (source, count), bytes) && vector@
                    == unpacked(bytes@, size as nat),
    {
        PlusMinusOnes { bits: next_bits(rng, size) }
    }

    /// The signs of the numbers: +1 where a number is no less than zero, -1 elsewhere.
    pub fn parse<F: FloatResolution>(values: &[F]) -> (vector: Self)
        requires
            values@.len() <= MAX_BITS,
        ensures
            parsed(values@, vector@),
    {
        let zero = F::zero();
        let mut bits: Vec<bool> = Vec::new();
        for i in 0..values.len()
            invariant
                bits@.len() == i,
                forall|j: int|
                    0 <= j < i ==> call_ensures(
                        F::at_least,
                        (values@[j], zero),
                        #[trigger] bits@[j],
                    ),
        {
            bits.push(values[i].at_least(zero));
        }
        assert(parsed_against(values@, zero, bits@));
        PlusMinusOnes { bits: BitVector::from_bools(&bits) }
    }

    /// The element at a position.
    pub fn index(&self, index: usize) -> (element: i8)
        requires
            index < self@.len(),
        ensures
            element == sign(self@[index as int]),
    {
        match self.bits.get(index) {
            true => 1,
            false => -1,
        }
    }
}

/// Architecture based upon multiple-add-permute.
#[derive(Debug)]
#[verifier::reject_recursive_types(Rng)]
pub struct MultiplyAddPermute<RM = isize, Rng = StdRng> {
    resolution: PhantomData<RM>,
    rng: Arc<RwLock<Rng>>,
}

/// The integers that the components of an accumulator stand for.
pub open spec fn integers<RM: IntResolution>(values: Seq<RM>) -> Seq<int> {
    values.map_values(|value: RM| value.as_int())
}

/// The steps of a cosine of integers: the integers as floating-point numbers, the products of
/// those, the accumulated products, and the quotient of the mixed one and the two square roots.
pub open spec fn integer_cosine_steps<RM: IntResolution, F: FloatResolution>(
    a: Seq<RM>,
    b: Seq<RM>,
    xs: Seq<F>,
    ys: Seq<F>,
    mixed: Seq<F>,
    left: Seq<F>,
    right: Seq<F>,
    dot: F,
    norm_a: F,
    norm_b: F,
    root_a: F,
    root_b: F,
    magnitude: F,
    result: F,
) -> bool {
    &&& converted(a, xs)
    &&& converted(b, ys)
    &&& products(xs, ys, mixed)
    &&& products(xs, xs, left)
    &&& products(ys, ys, right)
    &&& accumulated(mixed, dot)
    &&& accumulated(left, norm_a)
    &&& accumulated(right, norm_b)
    &&& call_ensures(F::square_root, (norm_a,), root_a)
    &&& call_ensures(F::square_root, (norm_b,), root_b)
    &&& call_ensures(F::times, (root_a, root_b), magnitude)
    &&& quotient(dot, magnitude, result)
}

/// `result` is the cosine of two vectors of integers, or zero where the product of their norms
/// equals zero.
pub open spec fn integer_cosine<RM: IntResolution, F: FloatResolution>(
    a: Seq<RM>,
    b: Seq<RM>,
    result: F,
) -> bool {
    exists|
        xs: Seq<F>,
        ys: Seq<F>,
        mixed: Seq<F>,
        left: Seq<F>,
        right: Seq<F>,
        dot: F,
        norm_a: F,
        norm_b: F,
        root_a: F,
        root_b: F,
        magnitude: F,
    | #[trigger]
        integer_cosine_steps(
            a,
            b,
            xs,
            ys,
            mixed,
            left,
            right,
            dot,
            norm_a,
            norm_b,
            root_a,
            root_b,
            magnitude,
            result,
        )
}

impl<RM, Rng: RandomSource> MultiplyAddPermute<RM, Rng> {
    /// The generator that the architecture draws from, which its clones share.
    pub closed spec fn generator(&self) -> RwLock<Rng> {
        *self.rng
    }

    /// Create a new architecture with a seed.
    pub fn new(seed: u64) -> (architecture: Self)
        ensures
            call_ensures(Rng::seeded, (seed,), architecture.generator()),
    {
        MultiplyAddPermute { resolution: PhantomData, rng: Arc::new(Rng::seeded(seed)) }
    }

    /// A random vector.
    pub fn random(&self, size: usize) -> (vector: PlusMinusOnes)
        requires
            size <= MAX_BITS,
        ensures
            vector@.len() == size,
            drawn(self.generator(), vector@),
    {
        PlusMinusOnes { bits: random_bits(&self.rng, size) }
    }

    /// Binds `b` into `a`: the product of the signs, element by element.
    pub fn bind(a: &mut PlusMinusOnes, b: &PlusMinusOnes)
        requires
            combinable(old(a)@.len(), b@.len()),
        ensures
            final(a)@ == xnor_bits(old(a)@, b@),
    {
        // The product of two signs is +1 where they are equal: the negation of exclusive or,
        // computed on whole words.
        a.bits.xor_assign(&b.bits);
        a.bits.invert();
        assert(a@ =~= xnor_bits(old(a)@, b@));
    }

    /// Moves every element `shifts` places towards the end, those that pass the end coming in at
    /// the front.
    pub fn permute(a: &mut PlusMinusOnes, shifts: usize)
        ensures
            final(a)@ == permuted(old(a)@, shifts as nat),
    {
        a.bits.permute(shifts);
    }

    /// The cosine of the two vectors.
    pub fn similarity<F: FloatResolution>(a: &PlusMinusOnes, b: &PlusMinusOnes) -> (result: F)
        requires
            combinable(a@.len(), b@.len()),
        ensures
            agreement(a@.len(), mismatches(a@, b@), result),
    {
        compute_agreement(a.len(), a.bits.mismatches(&b.bits))
    }
}

impl<RM: IntResolution, Rng: RandomSource> MultiplyAddPermute<RM, Rng> {
    /// The sign that a bit stands for.
    fn bit_to_resolution(bit: bool) -> (value: RM)
        ensures
            value.as_int() == sign(bit),
    {
        let one = RM::one();
        proof {
            RM::values(one, one);
        }
        if bit {
            one
        } else {
            one.negated()
        }
    }

    /// The signs of the components of an accumulator. A tie vote, zero, counts as +1.
    pub fn normalize(&self, storage: Vec<RM>) -> (vector: PlusMinusOnes)
        requires
            storage@.len() <= MAX_BITS,
        ensures
            vector@ == signs_of(integers(storage@)),
    {
        let one = RM::one();
        proof {
            RM::values(one, one);
        }
        let zero = one.negated().plus(one);
        let mut bits: Vec<bool> = Vec::new();
        for i in 0..storage.len()
            invariant
                zero.as_int() == 0,
                bits@ == signs_of(integers(storage@)).take(i as int),
        {
            bits.push(storage[i].at_least(zero));
            assert(bits@ =~= signs_of(integers(storage@)).take(i + 1));
        }
        assert(bits@ =~= signs_of(integers(storage@)));
        PlusMinusOnes { bits: BitVector::from_bools(&bits) }
    }

    /// The elements of a vector as integers.
    pub fn denormalize(storage: PlusMinusOnes) -> (accumulator: Vec<RM>)
        ensures
            accumulator@.len() == storage@.len(),
            integers(accumulator@) == signs(storage@),
    {
        // Whole bytes are unpacked, which is faster than reading bit by bit.
        let len = storage.len();
        let bytes = storage.bits.as_bytes();
        let mut out: Vec<RM> = Vec::with_capacity(len);
        let mut remaining = len;
        for k in 0..bytes.len()
            invariant
                len == storage@.len(),
                bytes@.len() == (len + 7) / 8,
                forall|i: int|
                    0 <= i < len ==> packed_bit(bytes@, i) == #[trigger] storage@[i],
                remaining <= len,
                out@.len() == len - remaining,
                out@.len() == if 8 * k <= len {
                    8 * k
                } else {
                    len as int
                },
                forall|i: int| 0 <= i < out@.len() ==> (#[trigger] out@[i]).as_int() == sign(
                    storage@[i],
                ),
        {
            let take = if remaining < 8 {
                remaining
            } else {
                8
            };
            let byte = bytes[k];
            let mut rest = byte;
            assert(byte >> 0u8 == byte) by (bit_vector);
            for n in 0..take
                invariant
                    take <= 8,
                    len == storage@.len(),
                    8 * k + take <= len,
                    k < bytes@.len(),
                    byte == bytes@[k as int],
                    rest == byte >> (n as u8),
                    forall|i: int|
                        0 <= i < len ==> packed_bit(bytes@, i) == #[trigger] storage@[i],
                    out@.len() == 8 * k + n,
                    forall|i: int|
                        0 <= i < out@.len() ==> (#[trigger] out@[i]).as_int() == sign(storage@[i]),
            {
                let ghost place = 8 * k + n;
                let ghost offset = n as u8;
                assert(place / 8 == k && place % 8 == n);
                assert(packed_bit(bytes@, place) == storage@[place]);
                out.push(Self::bit_to_resolution(rest & 1 == 1));
                assert((byte >> offset) >> 1u8 == byte >> ((offset + 1) as u8)) by (bit_vector)
                    requires
                        offset < 8,
                ;
                rest = rest >> 1;
            }
            remaining -= take;
        }
        assert(integers(out@) =~= signs(storage@));
        out
    }

    /// Bundles a vector into an accumulator: adds its signs, component by component.
    pub fn bundle(&self, accumulator: &mut Vec<RM>, vector: &PlusMinusOnes)
        requires
            forall|i: int|
                0 <= i < old(accumulator)@.len() && i < vector@.len() ==> RM::fits(
                    (#[trigger] old(accumulator)@[i]).as_int() + sign(vector@[i]),
                ),
        ensures
            final(accumulator)@.len() == old(accumulator)@.len(),
            integers(final(accumulator)@) == sums(
                integers(old(accumulator)@),
                signs(vector@),
            ),
    {
        let len = vector.len();
        let mut i: usize = 0;
        while i < accumulator.len() && i < len
            invariant
                len == vector@.len(),
                accumulator@.len() == old(accumulator)@.len(),
                i <= accumulator@.len(),
                i <= len,
                forall|j: int|
                    0 <= j < old(accumulator)@.len() && j < vector@.len() ==> RM::fits(
                        (#[trigger] old(accumulator)@[j]).as_int() + sign(vector@[j]),
                    ),
                forall|j: int|
                    0 <= j < i ==> (#[trigger] accumulator@[j]).as_int() == old(
                        accumulator,
                    )@[j].as_int() + sign(vector@[j]),
                forall|j: int|
                    i <= j < accumulator@.len() ==> #[trigger] accumulator@[j] == old(
                        accumulator,
                    )@[j],
            decreases len - i,
        {
            let sum = accumulator[i].plus(Self::bit_to_resolution(vector.bits.get(i)));
            accumulator.set(i, sum);
            i += 1;
        }
        assert(integers(accumulator@) =~= sums(integers(old(accumulator)@), signs(vector@)));
    }

    /// Bundles an accumulator into another one: adds it, component by component.
    pub fn bundle_with_accumulator(&self, accumulator: &mut Vec<RM>, vector: &Vec<RM>)
        requires
            forall|i: int|
                0 <= i < old(accumulator)@.len() && i < vector@.len() ==> RM::fits(
                    (#[trigger] old(accumulator)@[i]).as_int() + vector@[i].as_int(),
                ),
        ensures
            final(accumulator)@.len() == old(accumulator)@.len(),
            integers(final(accumulator)@) == sums(
                integers(old(accumulator)@),
                integers(vector@),
            ),
    {
        let mut i: usize = 0;
        while i < accumulator.len() && i < vector.len()
            invariant
                accumulator@.len() == old(accumulator)@.len(),
                i <= accumulator@.len(),
                i <= vector@.len(),
                forall|j: int|
                    0 <= j < old(accumulator)@.len() && j < vector@.len() ==> RM::fits(
                        (#[trigger] old(accumulator)@[j]).as_int() + vector@[j].as_int(),
                    ),
                forall|j: int|
                    0 <= j < i ==> (#[trigger] accumulator@[j]).as_int() == old(
                        accumulator,
                    )@[j].as_int() + vector@[j].as_int(),
                forall|j: int|
                    i <= j < accumulator@.len() ==> #[trigger] accumulator@[j] == old(
                        accumulator,
                    )@[j],
            decreases vector@.len() - i,
        {
            let sum = accumulator[i].plus(vector[i]);
            accumulator.set(i, sum);
            i += 1;
        }
        assert(integers(accumulator@) =~= sums(integers(old(accumulator)@), integers(vector@)));
    }

    /// Binds `b` into the accumulator `a`: changes the sign of every component for which `b` is
    /// -1.
    pub fn bind_with_accumulator(a: &mut Vec<RM>, b: &PlusMinusOnes)
        requires
            combinable(old(a)@.len(), b@.len()),
            forall|i: int|
                0 <= i < b@.len() && !b@[i] ==> RM::fits(-(#[trigger] old(a)@[i]).as_int()),
        ensures
            final(a)@.len() == old(a)@.len(),
            integers(final(a)@) == sign_products(integers(old(a)@), b@),
    {
        let len = a.len();
        for i in 0..len
            invariant
                len == a@.len() == old(a)@.len() == b@.len(),
                forall|j: int|
                    0 <= j < b@.len() && !b@[j] ==> RM::fits(-(#[trigger] old(a)@[j]).as_int()),
                forall|j: int|
                    0 <= j < i ==> (#[trigger] a@[j]).as_int() == old(a)@[j].as_int() * sign(b@[j]),
                forall|j: int| i <= j < a@.len() ==> #[trigger] a@[j] == old(a)@[j],
        {
            let ghost before = a@[i as int].as_int();
            assert(before * 1 == before && before * -1 == -before);
            if !b.bits.get(i) {
                let negated = a[i].negated();
                a.set(i, negated);
            }
            assert(a@[i as int].as_int() == before * sign(b@[i as int]));
        }
        assert(integers(a@) =~= sign_products(integers(old(a)@), b@));
    }

    /// The cosine of the two accumulators, or zero where one of them is zero.
    pub fn similarity_unnormalized<F: FloatResolution>(a: &Vec<RM>, b: &Vec<RM>) -> (result: F)
        requires
            combinable(a@.len(), b@.len()),
        ensures
            integer_cosine(a@, b@, result),
    {
        let mut dot = F::zero();
        let mut norm_a = F::zero();
        let mut norm_b = F::zero();
        let ghost mut xs: Seq<F> = Seq::empty();
        let ghost mut ys: Seq<F> = Seq::empty();
        let ghost mut mixed: Seq<F> = Seq::empty();
        let ghost mut left: Seq<F> = Seq::empty();
        let ghost mut right: Seq<F> = Seq::empty();
        proof {
            assert(partial_sums(mixed, seq![dot]));
            assert(partial_sums(left, seq![norm_a]));
            assert(partial_sums(right, seq![norm_b]));
        }
        for i in 0..a.len()
            invariant
                a@.len() == b@.len(),
                xs.len() == i,
                ys.len() == i,
                forall|j: int| 0 <= j < i ==> conversion(a@[j], #[trigger] xs[j]),
                forall|j: int| 0 <= j < i ==> conversion(b@[j], #[trigger] ys[j]),
                products(xs, ys, mixed),
                products(xs, xs, left),
                products(ys, ys, right),
                accumulated(mixed, dot),
                accumulated(left, norm_a),
                accumulated(right, norm_b),
        {
            let from_a = a[i].widened();
            let from_b = b[i].widened();
            let x = F::from_integer(from_a);
            let y = F::from_integer(from_b);
            let xy = x.times(y);
            let xx = x.times(x);
            let yy = y.times(y);
            let next_dot = dot.plus(xy);
            let next_a = norm_a.plus(xx);
            let next_b = norm_b.plus(yy);
            proof {
                assert(conversion(a@[i as int], x));
                assert(conversion(b@[i as int], y));
                lemma_accumulated_push(mixed, dot, xy, next_dot);
                lemma_accumulated_push(left, norm_a, xx, next_a);
                lemma_accumulated_push(right, norm_b, yy, next_b);
                xs = xs.push(x);
                ys = ys.push(y);
                mixed = mixed.push(xy);
                left = left.push(xx);
                right = right.push(yy);
            }
            dot = next_dot;
            norm_a = next_a;
            norm_b = next_b;
        }
        let root_a = norm_a.square_root();
        let root_b = norm_b.square_root();
        let magnitude = root_a.times(root_b);
        let result = compute_quotient(dot, magnitude);
        assert(integer_cosine_steps(
            a@,
            b@,
            xs,
            ys,
            mixed,
            left,
            right,
            dot,
            norm_a,
            norm_b,
            root_a,
            root_b,
            magnitude,
            result,
        ));
        result
    }
}

impl<RM, Rng: RandomSource> Clone for MultiplyAddPermute<RM, Rng> {
    fn clone(&self) -> (copy: Self)
        ensures
            copy.generator() == self.generator(),
    {
        MultiplyAddPermute { resolution: PhantomData, rng: self.rng.clone() }
    }
}

impl<RM, Rng: RandomSource> Default for MultiplyAddPermute<RM, Rng> {
    fn default() -> (architecture: Self)
        ensures
            exists|seed: u64|
                random_number(seed) && #[trigger] call_ensures(
                    Rng::seeded,
                    (seed,),
                    architecture.generator(),
                ),
    {
        Self::new(draw_seed())
    }
}

} // verus!
