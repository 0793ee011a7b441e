//! How the results of floating-point computations come about: which operation yields each
//! number, and from which others.

use vstd::prelude::*;

use crate::resolution::{FloatResolution, IntResolution};

verus! {

/// `partial` is the sums that adding the terms to zero goes through, one by one and in their
/// order: zero first, and one more for each term.
pub open spec fn partial_sums<F: FloatResolution>(terms: Seq<F>, partial: Seq<F>) -> bool {
    &&& partial.len() == terms.len() + 1
    &&& call_ensures(F::zero, (), partial[0])
    &&& forall|i: int|
        0 <= i < terms.len() ==> call_ensures(
            F::plus,
            (partial[i], #[trigger] terms[i]),
            partial[i + 1],
        )
}

/// `sum` is what adding the terms to zero, one by one and in their order, comes to.
pub open spec fn accumulated<F: FloatResolution>(terms: Seq<F>, sum: F) -> bool {
    exists|partial: Seq<F>| #[trigger] partial_sums(terms, partial) && partial.last() == sum
}

/// Adding one more term to an accumulated sum accumulates the terms and that one.
pub proof fn lemma_accumulated_push<F: FloatResolution>(
    terms: Seq<F>,
    before: F,
    term: F,
    sum: F,
)
    requires
        accumulated(terms, before),
        call_ensures(F::plus, (before, term), sum),
    ensures
        accumulated(terms.push(term), sum),
{
    let partial = choose|partial: Seq<F>| #[trigger]
        partial_sums(terms, partial) && partial.last() == before;
    assert(partial_sums(terms.push(term), partial.push(sum)));
}

/// `x` is no less than `low`, which is `zero - one`, and less than `one`.
pub open spec fn range_steps<F: FloatResolution>(x: F, zero: F, one: F, low: F) -> bool {
    &&& call_ensures(F::zero, (), zero)
    &&& call_ensures(F::one, (), one)
    &&& call_ensures(F::minus, (zero, one), low)
    &&& call_ensures(F::at_least, (x, low), true)
    &&& call_ensures(F::exceeds, (one, x), true)
}

/// `x` is no less than minus one and less than one.
pub open spec fn within_unit_range<F: FloatResolution>(x: F) -> bool {
    exists|zero: F, one: F, low: F| #[trigger] range_steps(x, zero, one, low)
}

/// Each number of `out` is the product of those of `xs` and `ys` at the same position.
pub open spec fn products<F: FloatResolution>(xs: Seq<F>, ys: Seq<F>, out: Seq<F>) -> bool {
    &&& xs.len() == ys.len() == out.len()
    &&& forall|i: int|
        0 <= i < out.len() ==> call_ensures(F::times, (xs[i], ys[i]), #[trigger] out[i])
}

/// `out` is the conversion of an integer.
pub open spec fn conversion<RM: IntResolution, F: FloatResolution>(x: RM, out: F) -> bool {
    exists|n: i128|
        n == x.as_int() && #[trigger] call_ensures(F::from_integer, (n,), out)
}

/// Each number of `out` is the conversion of the integer of `xs` at the same position.
pub open spec fn converted<RM: IntResolution, F: FloatResolution>(
    xs: Seq<RM>,
    out: Seq<F>,
) -> bool {
    &&& xs.len() == out.len()
    &&& forall|i: int| 0 <= i < out.len() ==> conversion(xs[i], #[trigger] out[i])
}

/// Each number of `out` is that of `xs` at the same position, divided by `divisor`.
pub open spec fn divided<F: FloatResolution>(xs: Seq<F>, divisor: F, out: Seq<F>) -> bool {
    &&& xs.len() == out.len()
    &&& forall|i: int|
        0 <= i < out.len() ==> call_ensures(F::over, (xs[i], divisor), #[trigger] out[i])
}

/// Each number of `after` is the sum of those of `before` and `values` at the same position;
/// past the end of `values`, those of `before` stay.
pub open spec fn added<F: FloatResolution>(before: Seq<F>, values: Seq<F>, after: Seq<F>) -> bool {
    &&& before.len() == after.len()
    &&& forall|i: int|
        0 <= i < after.len() && i < values.len() ==> call_ensures(
            F::plus,
            (before[i], values[i]),
            #[trigger] after[i],
        )
    &&& forall|i: int| values.len() <= i < after.len() ==> #[trigger] after[i] == before[i]
}

/// The steps from numbers to their Euclidean norm: each term is the square of a number, `sum` is
/// the total of the terms and `norm` its square root.
pub open spec fn norm_steps<F: FloatResolution>(
    values: Seq<F>,
    terms: Vec<F>,
    sum: F,
    norm: F,
) -> bool {
    &&& terms@.len() == values.len()
    &&& forall|i: int|
        0 <= i < values.len() ==> call_ensures(F::squared, (values[i],), #[trigger] terms@[i])
    &&& call_ensures(F::total, (&terms,), sum)
    &&& call_ensures(F::square_root, (sum,), norm)
}

/// `norm` is the Euclidean norm of the values.
pub open spec fn euclidean_norm<F: FloatResolution>(values: Seq<F>, norm: F) -> bool {
    exists|terms: Vec<F>, sum: F| #[trigger] norm_steps(values, terms, sum, norm)
}

/// The steps of a normalisation: `flat` says whether the norm equals zero; the values then stay
/// as they are, and are divided by the norm otherwise.
pub open spec fn normalize_steps<F: FloatResolution>(
    values: Seq<F>,
    norm: F,
    zero: F,
    flat: bool,
    out: Seq<F>,
) -> bool {
    &&& euclidean_norm(values, norm)
    &&& call_ensures(F::zero, (), zero)
    &&& call_ensures(F::equals, (norm, zero), flat)
    &&& if flat {
        out == values
    } else {
        divided(values, norm, out)
    }
}

/// `out` is the values divided by their norm, or the values where the norm equals zero.
pub open spec fn normalized<F: FloatResolution>(values: Seq<F>, out: Seq<F>) -> bool {
    exists|norm: F, zero: F, flat: bool| #[trigger]
        normalize_steps(values, norm, zero, flat, out)
}

/// The steps of a scaling: `positive` says whether the norm exceeds zero; the values are then
/// divided by it, and stay as they are otherwise.
pub open spec fn scale_steps<F: FloatResolution>(
    values: Seq<F>,
    norm: F,
    zero: F,
    positive: bool,
    out: Seq<F>,
) -> bool {
    &&& euclidean_norm(values, norm)
    &&& call_ensures(F::zero, (), zero)
    &&& call_ensures(F::exceeds, (norm, zero), positive)
    &&& if positive {
        divided(values, norm, out)
    } else {
        out == values
    }
}

/// `out` is the values divided by their norm where that exceeds zero, else the values.
pub open spec fn unit_scaled<F: FloatResolution>(values: Seq<F>, out: Seq<F>) -> bool {
    exists|norm: F, zero: F, positive: bool| #[trigger]
        scale_steps(values, norm, zero, positive, out)
}

/// The steps of a guarded division: `flat` says whether the magnitude equals zero; the result is
/// then zero, and `dot / magnitude` otherwise.
pub open spec fn quotient_steps<F: FloatResolution>(
    dot: F,
    magnitude: F,
    zero: F,
    flat: bool,
    result: F,
) -> bool {
    &&& call_ensures(F::zero, (), zero)
    &&& call_ensures(F::equals, (magnitude, zero), flat)
    &&& if flat {
        call_ensures(F::zero, (), result)
    } else {
        call_ensures(F::over, (dot, magnitude), result)
    }
}

/// `result` is `dot / magnitude`, or zero where the magnitude equals zero.
pub open spec fn quotient<F: FloatResolution>(dot: F, magnitude: F, result: F) -> bool {
    exists|zero: F, flat: bool| #[trigger] quotient_steps(dot, magnitude, zero, flat, result)
}

/// Computes `dot / magnitude`, or zero where the magnitude equals zero.
pub fn compute_quotient<F: FloatResolution>(dot: F, magnitude: F) -> (result: F)
    ensures
        quotient(dot, magnitude, result),
{
    let zero = F::zero();
    let flat = magnitude.equals(zero);
    let result = if flat {
        F::zero()
    } else {
        dot.over(magnitude)
    };
    assert(quotient_steps(dot, magnitude, zero, flat, result));
    result
}

/// The steps from the size and the number of mismatches to a similarity: `dim` and `wrong` are
/// the two as floating-point numbers, and `result` is `(dim - 2 * wrong) / dim`.
pub open spec fn agreement_steps<F: FloatResolution>(
    size: nat,
    mismatches: nat,
    dim: F,
    wrong: F,
    two: F,
    twice: F,
    dot: F,
    result: F,
) -> bool {
    &&& size <= usize::MAX && call_ensures(F::from_count, (size as usize,), dim)
    &&& mismatches <= usize::MAX && call_ensures(F::from_count, (mismatches as usize,), wrong)
    &&& call_ensures(F::from_count, (2usize,), two)
    &&& call_ensures(F::times, (two, wrong), twice)
    &&& call_ensures(F::minus, (dim, twice), dot)
    &&& call_ensures(F::over, (dot, dim), result)
}

/// `result` is the normalised agreement of two sign vectors of the given size which differ in
/// the given number of places: `(size - 2 * mismatches) / size`.
pub open spec fn agreement<F: FloatResolution>(size: nat, mismatches: nat, result: F) -> bool {
    exists|dim: F, wrong: F, two: F, twice: F, dot: F| #[trigger]
        agreement_steps(size, mismatches, dim, wrong, two, twice, dot, result)
}

/// Computes `(size - 2 * mismatches) / size`.
pub fn compute_agreement<F: FloatResolution>(size: usize, mismatches: usize) -> (result: F)
    ensures
        agreement(size as nat, mismatches as nat, result),
{
    let dim = F::from_count(size);
    let wrong = F::from_count(mismatches);
    let two = F::from_count(2);
    let twice = two.times(wrong);
    let dot = dim.minus(twice);
    let result = dot.over(dim);
    assert(agreement_steps(size as nat, mismatches as nat, dim, wrong, two, twice, dot, result));
    result
}

} // verus!
