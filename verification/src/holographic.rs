//! Holographic reduced representations.

use std::marker::PhantomData;
use std::sync::Arc;

use parking_lot::RwLock;
use rand::rngs::StdRng;
use vstd::prelude::*;

use crate::arithmetic::{added, compute_quotient, divided, euclidean_norm, norm_steps};
use crate::arithmetic::{normalize_steps, normalized, products, quotient, scale_steps, unit_scaled};
use crate::arithmetic::within_unit_range;
use crate::generator::{draw_seed, random_number, RandomSource};
use crate::model::{permuted, reflected};
use crate::resolution::{Complex, DrawnResolution, FloatResolution, FourierResolution};
use crate::sequence::{permute, reflect};
use crate::storage::combinable;

verus! {

/// Architecture based upon Holographic Reduced Representations.
#[derive(Debug)]
#[verifier::reject_recursive_types(Rng)]
pub struct HolographicReducedRepresentation<R, Rng = StdRng> {
    marker: PhantomData<R>,
    rng: Arc<RwLock<Rng>>,
}

/// Each number of `out` is the one of `values` at the same position, as a complex number with the
/// imaginary part `zero`.
pub open spec fn embedded<R>(values: Seq<R>, zero: R, out: Seq<Complex<R>>) -> bool {
    &&& values.len() == out.len()
    &&& forall|i: int|
        0 <= i < out.len() ==> (#[trigger] out[i]).re == values[i] && out[i].im == zero
}

/// The steps of a complex multiplication: the four products of the parts, their difference as the
/// real part and their sum as the imaginary part.
pub open spec fn product_steps<R: FloatResolution>(
    x: Complex<R>,
    y: Complex<R>,
    first: R,
    second: R,
    left: R,
    right: R,
    out: Complex<R>,
) -> bool {
    &&& call_ensures(R::times, (x.re, y.re), first)
    &&& call_ensures(R::times, (x.im, y.im), second)
    &&& call_ensures(R::times, (x.im, y.re), left)
    &&& call_ensures(R::times, (x.re, y.im), right)
    &&& call_ensures(R::minus, (first, second), out.re)
    &&& call_ensures(R::plus, (left, right), out.im)
}

/// `out` is the complex product of `x` and `y`.
pub open spec fn complex_product<R: FloatResolution>(
    x: Complex<R>,
    y: Complex<R>,
    out: Complex<R>,
) -> bool {
    exists|first: R, second: R, left: R, right: R| #[trigger]
        product_steps(x, y, first, second, left, right, out)
}

/// Each number of `out` is the complex product of those of `xs` and `ys` at the same position.
pub open spec fn spectrum_product<R: FloatResolution>(
    xs: Seq<Complex<R>>,
    ys: Seq<Complex<R>>,
    out: Seq<Complex<R>>,
) -> bool {
    &&& xs.len() == ys.len() == out.len()
    &&& forall|i: int|
        0 <= i < out.len() ==> complex_product(xs[i], ys[i], #[trigger] out[i])
}

/// The transform of real numbers: `embedding` is the numbers as complex ones, `spectrum` what the
/// forward transform makes of them.
pub open spec fn transformed<R: FourierResolution>(
    values: Seq<R>,
    zero: R,
    embedding: Vec<Complex<R>>,
    spectrum: Vec<Complex<R>>,
) -> bool {
    &&& call_ensures(R::zero, (), zero)
    &&& embedded(values, zero, embedding@)
    &&& call_ensures(R::forward_transform, (embedding,), spectrum)
}

/// `spectrum` is the forward transform of real numbers.
pub open spec fn spectrum_of<R: FourierResolution>(
    values: Seq<R>,
    spectrum: Vec<Complex<R>>,
) -> bool {
    exists|zero: R, embedding: Vec<Complex<R>>| #[trigger]
        transformed(values, zero, embedding, spectrum)
}

/// The scaling after an inverse transform of `size` values: `out` is the real parts of `values`,
/// each times `one / count`.
pub open spec fn rescale_steps<R: FloatResolution>(
    values: Seq<Complex<R>>,
    size: nat,
    one: R,
    count: R,
    scale: R,
    out: Seq<R>,
) -> bool {
    &&& call_ensures(R::one, (), one)
    &&& size <= usize::MAX && call_ensures(R::from_count, (size as usize,), count)
    &&& call_ensures(R::over, (one, count), scale)
    &&& out.len() == values.len()
    &&& forall|i: int|
        0 <= i < out.len() ==> call_ensures(R::times, (values[i].re, scale), #[trigger] out[i])
}

/// `out` is the real parts of `values`, each times one over `size`.
pub open spec fn rescaled<R: FloatResolution>(
    values: Seq<Complex<R>>,
    size: nat,
    out: Seq<R>,
) -> bool {
    exists|one: R, count: R, scale: R| #[trigger]
        rescale_steps(values, size, one, count, scale, out)
}

/// The steps of a binding: the spectra of `a` and `b`, their product, its inverse transform and
/// the rescaling of that.
pub open spec fn bind_steps<R: FourierResolution>(
    a: Seq<R>,
    b: Seq<R>,
    left: Vec<Complex<R>>,
    right: Vec<Complex<R>>,
    spectrum: Vec<Complex<R>>,
    values: Vec<Complex<R>>,
    out: Seq<R>,
) -> bool {
    &&& spectrum_of(a, left)
    &&& spectrum_of(b, right)
    &&& spectrum_product(left@, right@, spectrum@)
    &&& call_ensures(R::inverse_transform, (spectrum,), values)
    &&& rescaled(values@, a.len(), out)
}

/// `out` is the binding of `a` and `b`: the inverse transform of the product of their transforms.
pub open spec fn bound<R: FourierResolution>(a: Seq<R>, b: Seq<R>, out: Seq<R>) -> bool {
    exists|
        left: Vec<Complex<R>>,
        right: Vec<Complex<R>>,
        spectrum: Vec<Complex<R>>,
        values: Vec<Complex<R>>,
    | #[trigger]
        bind_steps(a, b, left, right, spectrum, values, out)
}

/// The steps of a cosine: the products of the components, their total, the two norms and their
/// product, and the quotient.
pub open spec fn cosine_steps<R: FloatResolution>(
    a: Seq<R>,
    b: Seq<R>,
    terms: Vec<R>,
    dot: R,
    left: R,
    right: R,
    magnitude: R,
    result: R,
) -> bool {
    &&& products(a, b, terms@)
    &&& call_ensures(R::total, (&terms,), dot)
    &&& euclidean_norm(a, left)
    &&& euclidean_norm(b, right)
    &&& call_ensures(R::times, (left, right), magnitude)
    &&& quotient(dot, magnitude, result)
}

/// `result` is the cosine of `a` and `b`, or zero where the product of their norms equals zero.
pub open spec fn cosine<R: FloatResolution>(a: Seq<R>, b: Seq<R>, result: R) -> bool {
    exists|terms: Vec<R>, dot: R, left: R, right: R, magnitude: R| #[trigger]
        cosine_steps(a, b, terms, dot, left, right, magnitude, result)
}

impl<R, Rng: RandomSource> HolographicReducedRepresentation<R, Rng> {
    /// The generator that the architecture draws from, which its clones share.
    pub closed spec fn generator(&self) -> RwLock<Rng> {
        *self.rng
    }

    /// Create a new architecture with a seed.
    pub fn new(seed: u64) -> (architecture: Self)
        ensures
            call_ensures(Rng::seeded, (seed,), architecture.generator()),
    {
        HolographicReducedRepresentation { marker: PhantomData, rng: Arc::new(Rng::seeded(seed)) }
    }

    /// The vector as an accumulator.
    pub fn denormalize(storage: Vec<R>) -> (accumulator: Vec<R>)
        ensures
            accumulator == storage,
    {
        storage
    }

    /// Moves every component `shifts` places towards the end, those that pass the end coming in
    /// at the front.
    pub fn permute(a: &mut Vec<R>, shifts: usize)
        ensures
            final(a)@ == permuted(old(a)@, shifts as nat),
    {
        permute(a, shifts);
    }

    /// The stable inverse of a vector under binding: the first component stays, the order of the
    /// others is turned round.
    pub fn inverse(a: &mut Vec<R>)
        ensures
            final(a)@ == reflected(old(a)@),
    {
        reflect(a);
    }
}

impl<R: FloatResolution, Rng: RandomSource> HolographicReducedRepresentation<R, Rng> {
    /// The Euclidean norm.
    pub fn norm(values: &Vec<R>) -> (norm: R)
        ensures
            euclidean_norm(values@, norm),
    {
        let mut terms: Vec<R> = Vec::new();
        for i in 0..values.len()
            invariant
                terms@.len() == i,
                forall|j: int|
                    0 <= j < i ==> call_ensures(R::squared, (values@[j],), #[trigger] terms@[j]),
        {
            terms.push(values[i].squared());
        }
        let sum = R::total(&terms);
        let norm = sum.square_root();
        assert(norm_steps(values@, terms, sum, norm));
        norm
    }

    /// The values, each divided by `norm`.
    fn divide(values: &Vec<R>, norm: R) -> (out: Vec<R>)
        ensures
            divided(values@, norm, out@),
    {
        let mut out: Vec<R> = Vec::new();
        for i in 0..values.len()
            invariant
                out@.len() == i,
                forall|j: int|
                    0 <= j < i ==> call_ensures(R::over, (values@[j], norm), #[trigger] out@[j]),
        {
            out.push(values[i].over(norm));
        }
        out
    }

    /// Scales values to unit length, where their norm exceeds zero.
    pub fn scale_to_unit(values: Vec<R>) -> (out: Vec<R>)
        ensures
            out@.len() == values@.len(),
            unit_scaled(values@, out@),
    {
        let norm = Self::norm(&values);
        let zero = R::zero();
        let positive = norm.exceeds(zero);
        if positive {
            let out = Self::divide(&values, norm);
            assert(scale_steps(values@, norm, zero, positive, out@));
            out
        } else {
            assert(scale_steps(values@, norm, zero, positive, values@));
            values
        }
    }

    /// The accumulator scaled to unit length, unless its norm equals zero.
    pub fn normalize(&self, storage: Vec<R>) -> (vector: Vec<R>)
        ensures
            vector@.len() == storage@.len(),
            normalized(storage@, vector@),
    {
        let norm = Self::norm(&storage);
        let zero = R::zero();
        let flat = norm.equals(zero);
        if flat {
            assert(normalize_steps(storage@, norm, zero, flat, storage@));
            return storage;
        }
        let out = Self::divide(&storage, norm);
        assert(normalize_steps(storage@, norm, zero, flat, out@));
        out
    }

    /// Bundles a vector into an accumulator: adds it, component by component.
    pub fn bundle(&self, accumulator: &mut Vec<R>, vector: &Vec<R>)
        ensures
            added(old(accumulator)@, vector@, final(accumulator)@),
    {
        let mut i: usize = 0;
        while i < accumulator.len() && i < vector.len()
            invariant
                accumulator@.len() == old(accumulator)@.len(),
                0 <= i <= accumulator@.len(),
                i <= vector@.len(),
                forall|j: int|
                    0 <= j < i ==> call_ensures(
                        R::plus,
                        (old(accumulator)@[j], vector@[j]),
                        #[trigger] accumulator@[j],
                    ),
                forall|j: int|
                    i <= j < accumulator@.len() ==> #[trigger] accumulator@[j] == old(
                        accumulator,
                    )@[j],
            decreases vector@.len() - i,
        {
            let sum = accumulator[i].plus(vector[i]);
            accumulator.set(i, sum);
            i += 1;
        }
    }

    /// Bundles an accumulator into another one.
    pub fn bundle_with_accumulator(&self, accumulator: &mut Vec<R>, vector: &Vec<R>)
        ensures
            added(old(accumulator)@, vector@, final(accumulator)@),
    {
        self.bundle(accumulator, vector);
    }

    /// The cosine of the two vectors, or zero where one of them is zero.
    pub fn similarity(a: &Vec<R>, b: &Vec<R>) -> (result: R)
        requires
            combinable(a@.len(), b@.len()),
        ensures
            cosine(a@, b@, result),
    {
        let mut terms: Vec<R> = Vec::new();
        for i in 0..a.len()
            invariant
                a@.len() == b@.len(),
                terms@.len() == i,
                forall|j: int|
                    0 <= j < i ==> call_ensures(R::times, (a@[j], b@[j]), #[trigger] terms@[j]),
        {
            terms.push(a[i].times(b[i]));
        }
        let dot = R::total(&terms);
        let left = Self::norm(a);
        let right = Self::norm(b);
        let magnitude = left.times(right);
        let result = compute_quotient(dot, magnitude);
        assert(cosine_steps(a@, b@, terms, dot, left, right, magnitude, result));
        result
    }

    /// The similarity of two accumulators.
    pub fn similarity_unnormalized(a: &Vec<R>, b: &Vec<R>) -> (result: R)
        requires
            combinable(a@.len(), b@.len()),
        ensures
            cosine(a@, b@, result),
    {
        Self::similarity(a, b)
    }
}

impl<Rng: RandomSource, R: DrawnResolution<Rng>> HolographicReducedRepresentation<R, Rng> {
    /// A random vector: components drawn in one go, no less than minus one and less than
    /// one, then scaled to unit length.
    pub fn random(&self, size: usize) -> (vector: Vec<R>)
        ensures
            vector@.len() == size,
            exists|draws: Vec<R>|
                {
                    &&& #[trigger] call_ensures(R::draw, (&self.generator(), size), draws)
                    &&& draws@.len() == size
                    &&& forall|i: int| 0 <= i < size ==> within_unit_range(#[trigger] draws@[i])
                    &&& unit_scaled(draws@, vector@)
                },
    {
        let draws = R::draw(&self.rng, size);
        Self::scale_to_unit(draws)
    }
}

impl<R: FourierResolution, Rng: RandomSource> HolographicReducedRepresentation<R, Rng> {
    /// The forward transform of real numbers.
    fn spectrum(values: &Vec<R>) -> (spectrum: Vec<Complex<R>>)
        ensures
            spectrum@.len() == values@.len(),
            spectrum_of(values@, spectrum),
    {
        let zero = R::zero();
        let mut embedding: Vec<Complex<R>> = Vec::new();
        for i in 0..values.len()
            invariant
                embedded(values@.take(i as int), zero, embedding@),
        {
            embedding.push(Complex { re: values[i], im: zero });
        }
        let ghost embedded_values = embedding;
        let spectrum = R::forward_transform(embedding);
        assert(transformed(values@, zero, embedded_values, spectrum));
        spectrum
    }

    /// The complex product of two numbers.
    fn multiply(x: Complex<R>, y: Complex<R>) -> (out: Complex<R>)
        ensures
            complex_product(x, y, out),
    {
        let first = x.re.times(y.re);
        let second = x.im.times(y.im);
        let left = x.im.times(y.re);
        let right = x.re.times(y.im);
        let out = Complex { re: first.minus(second), im: left.plus(right) };
        assert(product_steps(x, y, first, second, left, right, out));
        out
    }

    /// The circular convolution of two vectors, by way of their transforms.
    pub fn bind_values(a: &Vec<R>, b: &Vec<R>) -> (out: Vec<R>)
        requires
            combinable(a@.len(), b@.len()),
        ensures
            out@.len() == a@.len(),
            bound(a@, b@, out@),
    {
        let len = a.len();
        let left = Self::spectrum(a);
        let right = Self::spectrum(b);
        let mut spectrum: Vec<Complex<R>> = Vec::new();
        for i in 0..left.len()
            invariant
                left@.len() == right@.len(),
                spectrum_product(left@.take(i as int), right@.take(i as int), spectrum@),
        {
            spectrum.push(Self::multiply(left[i], right[i]));
        }
        let ghost product = spectrum;
        let values = R::inverse_transform(spectrum);

        // The inverse transform is unnormalized.
        let one = R::one();
        let count = R::from_count(len);
        let scale = one.over(count);
        let mut out: Vec<R> = Vec::new();
        for i in 0..values.len()
            invariant
                out@.len() == i,
                forall|j: int|
                    0 <= j < i ==> call_ensures(
                        R::times,
                        (values@[j].re, scale),
                        #[trigger] out@[j],
                    ),
        {
            out.push(values[i].re.times(scale));
        }
        assert(rescale_steps(values@, a@.len(), one, count, scale, out@));
        assert(bind_steps(a@, b@, left, right, product, values, out@));
        out
    }

    /// Binds `b` into `a`.
    pub fn bind(a: &mut Vec<R>, b: &Vec<R>)
        requires
            combinable(old(a)@.len(), b@.len()),
        ensures
            final(a)@.len() == old(a)@.len(),
            bound(old(a)@, b@, final(a)@),
    {
        *a = Self::bind_values(a, b);
    }

    /// Binds `b` into the accumulator `a`.
    pub fn bind_with_accumulator(a: &mut Vec<R>, b: &Vec<R>)
        requires
            combinable(old(a)@.len(), b@.len()),
        ensures
            final(a)@.len() == old(a)@.len(),
            bound(old(a)@, b@, final(a)@),
    {
        *a = Self::bind_values(a, b);
    }
}

impl<R, Rng: RandomSource> Clone for HolographicReducedRepresentation<R, Rng> {
    fn clone(&self) -> (copy: Self)
        ensures
            copy.generator() == self.generator(),
    {
        HolographicReducedRepresentation { marker: PhantomData, rng: self.rng.clone() }
    }
}

impl<R, Rng: RandomSource> Default for HolographicReducedRepresentation<R, Rng> {
    fn default() -> (architecture: Self)
        ensures
            exists|seed: u64|
                random_number(seed) && #[trigger] call_ensures(
                    Rng::seeded,
                    (seed,),
                    architecture.generator(),
                ),
    {
        Self::new(draw_seed())
    }
}

} // verus!
