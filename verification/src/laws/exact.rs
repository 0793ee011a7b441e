//! What similarities and normalisations come to where the arithmetic is exact.

use vstd::prelude::*;

use crate::arithmetic::{accumulated, added, agreement, agreement_steps, conversion, euclidean_norm};
use crate::arithmetic::{norm_steps, normalize_steps, normalized, partial_sums, quotient};
use crate::arithmetic::{quotient_steps, range_steps, scale_steps, unit_scaled, within_unit_range};
use crate::holographic::{cosine, cosine_steps};
use crate::laws::counting::{mismatches_bounded, mismatches_of_equal, mismatches_of_opposite};
use crate::laws::multiply_add_permute::{dot_product, dot_product_of_signs};
use crate::laws::real_sums::{lemma_associates, lemma_cauchy_schwarz, lemma_commutes};
use crate::laws::real_sums::{lemma_scalar_square, lemma_square, lemma_sum_equal};
use crate::laws::real_sums::{lemma_sum_scaled, lemma_units};
use crate::laws::real_sums::{real_sum, scalar_product};
use crate::model::{mismatches, not_bits, sign, sign_products, signs, xor_bits};
use crate::multiply_add_permute::{integer_cosine, integer_cosine_steps, parsed, parsed_against};
use crate::multiply_add_permute::{integers, serialized};
use crate::resolution::{FloatResolution, IntResolution};
use crate::storage::combinable;

verus! {

/// The arithmetic is exact: with `value` for the real number that a value stands for, every
/// operation gives what it gives on real numbers.
pub open spec fn exact<F: FloatResolution>(value: spec_fn(F) -> real) -> bool {
    &&& forall|r: F| #[trigger] call_ensures(F::zero, (), r) ==> value(r) == 0real
    &&& forall|r: F| #[trigger] call_ensures(F::one, (), r) ==> value(r) == 1real
    &&& forall|n: usize, r: F| #[trigger]
        call_ensures(F::from_count, (n,), r) ==> value(r) == (n as int) as real
    &&& forall|n: i128, r: F| #[trigger]
        call_ensures(F::from_integer, (n,), r) ==> value(r) == (n as int) as real
    &&& forall|x: F, y: F, r: F| #[trigger]
        call_ensures(F::plus, (x, y), r) ==> value(r) == value(x) + value(y)
    &&& forall|x: F, y: F, r: F| #[trigger]
        call_ensures(F::minus, (x, y), r) ==> value(r) == value(x) - value(y)
    &&& forall|x: F, y: F, r: F| #[trigger]
        call_ensures(F::times, (x, y), r) ==> value(r) == value(x) * value(y)
    &&& forall|x: F, y: F, r: F| #[trigger]
        call_ensures(F::over, (x, y), r) && value(y) != 0real ==> value(r) * value(y) == value(x)
    &&& forall|x: F, r: F| #[trigger]
        call_ensures(F::squared, (x,), r) ==> value(r) == value(x) * value(x)
    &&& forall|x: F, r: F| #[trigger]
        call_ensures(F::square_root, (x,), r) && value(x) >= 0real ==> value(r) >= 0real && value(r)
            * value(r) == value(x)
    &&& forall|terms: Vec<F>, r: F| #[trigger]
        call_ensures(F::total, (&terms,), r) ==> value(r) == real_sum(
            terms@.len(),
            |i: int| value(terms@[i]),
        )
    &&& forall|x: F, y: F, r: bool| #[trigger]
        call_ensures(F::equals, (x, y), r) ==> r == (value(x) == value(y))
    &&& forall|x: F, y: F, r: bool| #[trigger]
        call_ensures(F::exceeds, (x, y), r) ==> r == (value(x) > value(y))
    &&& forall|x: F, y: F, r: bool| #[trigger]
        call_ensures(F::at_least, (x, y), r) ==> r == (value(x) >= value(y))
}

/// `magnitude` is the product of the lengths of the two vectors.
pub open spec fn length_product(a: Seq<real>, b: Seq<real>, magnitude: real) -> bool {
    &&& magnitude >= 0real
    &&& magnitude * magnitude == scalar_product(a, a) * scalar_product(b, b)
}

/// `c` is the cosine of the angle between the two vectors, or zero where one of them is zero.
pub open spec fn real_cosine(a: Seq<real>, b: Seq<real>, c: real) -> bool {
    exists|magnitude: real| #[trigger]
        length_product(a, b, magnitude) && if magnitude == 0real {
            c == 0real
        } else {
            c * magnitude == scalar_product(a, b)
        }
}

/// The real numbers that integers are.
pub open spec fn reals<RM: IntResolution>(values: Seq<RM>) -> Seq<real> {
    values.map_values(|value: RM| value.as_int() as real)
}

proof fn lemma_product_of_roots(x: real, y: real, p: real, q: real)
    by (nonlinear_arith)
    requires
        x >= 0real,
        y >= 0real,
        x * x == p,
        y * y == q,
    ensures
        x * y >= 0real,
        (x * y) * (x * y) == p * q,
{
}

proof fn lemma_quotient<F: FloatResolution>(
    value: spec_fn(F) -> real,
    dot: F,
    magnitude: F,
    result: F,
)
    requires
        exact(value),
        quotient(dot, magnitude, result),
    ensures
        value(magnitude) == 0real ==> value(result) == 0real,
        value(magnitude) != 0real ==> value(result) * value(magnitude) == value(dot),
{
    let (zero, flat) = choose|zero: F, flat: bool| #[trigger]
        quotient_steps(dot, magnitude, zero, flat, result);
}

/// The Euclidean norm is the length.
pub proof fn norm_is_length<F: FloatResolution>(
    value: spec_fn(F) -> real,
    values: Seq<F>,
    norm: F,
)
    requires
        exact(value),
        euclidean_norm(values, norm),
    ensures
        value(norm) >= 0real,
        value(norm) * value(norm) == scalar_product(
            values.map_values(value),
            values.map_values(value),
        ),
{
    let (terms, sum) = choose|terms: Vec<F>, sum: F| #[trigger]
        norm_steps(values, terms, sum, norm);
    let a = values.map_values(value);
    let f = |i: int| value(terms@[i]);
    let g = |i: int| a[i] * a[i];
    assert forall|i: int| 0 <= i < values.len() implies #[trigger] f(i) == g(i) by {
        assert(call_ensures(F::squared, (values[i],), terms@[i]));
    }
    lemma_sum_equal(values.len(), f, g);
    lemma_scalar_square(a, -1);
}

/// The similarity of holographic vectors is the cosine of the angle between them.
pub proof fn similarity_is_cosine<R: FloatResolution>(
    value: spec_fn(R) -> real,
    a: Seq<R>,
    b: Seq<R>,
    result: R,
)
    requires
        combinable(a.len(), b.len()),
        exact(value),
        cosine(a, b, result),
    ensures
        real_cosine(a.map_values(value), b.map_values(value), value(result)),
{
    let (terms, dot, left, right, magnitude) = choose|
        terms: Vec<R>,
        dot: R,
        left: R,
        right: R,
        magnitude: R,
    | #[trigger]
        cosine_steps(a, b, terms, dot, left, right, magnitude, result);
    let (xs, ys) = (a.map_values(value), b.map_values(value));
    let f = |i: int| value(terms@[i]);
    let g = |i: int| xs[i] * ys[i];
    assert forall|i: int| 0 <= i < a.len() implies #[trigger] f(i) == g(i) by {
        assert(call_ensures(R::times, (a[i], b[i]), terms@[i]));
    }
    lemma_sum_equal(a.len(), f, g);
    norm_is_length(value, a, left);
    norm_is_length(value, b, right);
    lemma_product_of_roots(
        value(left),
        value(right),
        scalar_product(xs, xs),
        scalar_product(ys, ys),
    );
    lemma_quotient(value, dot, magnitude, result);
    assert(length_product(xs, ys, value(magnitude)));
}

proof fn lemma_accumulated<F: FloatResolution>(value: spec_fn(F) -> real, terms: Seq<F>, sum: F)
    requires
        exact(value),
        accumulated(terms, sum),
    ensures
        value(sum) == real_sum(terms.len(), |i: int| value(terms[i])),
{
    let partial = choose|partial: Seq<F>| #[trigger]
        partial_sums(terms, partial) && partial.last() == sum;
    lemma_partial_sum(value, terms, partial, terms.len());
}

proof fn lemma_partial_sum<F: FloatResolution>(
    value: spec_fn(F) -> real,
    terms: Seq<F>,
    partial: Seq<F>,
    count: nat,
)
    requires
        exact(value),
        partial_sums(terms, partial),
        count <= terms.len(),
    ensures
        value(partial[count as int]) == real_sum(count, |i: int| value(terms[i])),
    decreases count,
{
    if count > 0 {
        let k = count - 1;
        lemma_partial_sum(value, terms, partial, k as nat);
        assert(call_ensures(F::plus, (partial[k], terms[k]), partial[k + 1]));
    }
}

proof fn lemma_products_accumulated<RM: IntResolution, F: FloatResolution>(
    value: spec_fn(F) -> real,
    a: Seq<RM>,
    b: Seq<RM>,
    xs: Seq<F>,
    ys: Seq<F>,
    terms: Seq<F>,
    sum: F,
)
    requires
        exact(value),
        crate::arithmetic::converted(a, xs),
        crate::arithmetic::converted(b, ys),
        crate::arithmetic::products(xs, ys, terms),
        accumulated(terms, sum),
    ensures
        value(sum) == scalar_product(reals(a), reals(b)),
{
    let f = |i: int| value(terms[i]);
    let g = |i: int| reals(a)[i] * reals(b)[i];
    lemma_accumulated(value, terms, sum);
    assert forall|i: int| 0 <= i < terms.len() implies #[trigger] f(i) == g(i) by {
        assert(call_ensures(F::times, (xs[i], ys[i]), terms[i]));
        assert(conversion(a[i], xs[i]));
        assert(conversion(b[i], ys[i]));
    }
    lemma_sum_equal(terms.len(), f, g);
}

/// The similarity of accumulators is the cosine of the angle between them.
pub proof fn unnormalized_similarity_is_cosine<RM: IntResolution, F: FloatResolution>(
    value: spec_fn(F) -> real,
    a: Seq<RM>,
    b: Seq<RM>,
    result: F,
)
    requires
        combinable(a.len(), b.len()),
        exact(value),
        integer_cosine(a, b, result),
    ensures
        real_cosine(reals(a), reals(b), value(result)),
{
    let (xs, ys, mixed, left, right, dot, norm_a, norm_b, root_a, root_b, magnitude) = choose|
        xs: Seq<F>,
        ys: Seq<F>,
        mixed: Seq<F>,
        left: Seq<F>,
        right: Seq<F>,
        dot: F,
        norm_a: F,
        norm_b: F,
        root_a: F,
        root_b: F,
        magnitude: F,
    | #[trigger]
        integer_cosine_steps(
            a,
            b,
            xs,
            ys,
            mixed,
            left,
            right,
            dot,
            norm_a,
            norm_b,
            root_a,
            root_b,
            magnitude,
            result,
        );
    lemma_products_accumulated(value, a, b, xs, ys, mixed, dot);
    lemma_products_accumulated(value, a, a, xs, xs, left, norm_a);
    lemma_products_accumulated(value, b, b, ys, ys, right, norm_b);
    lemma_scalar_square(reals(a), -1);
    lemma_scalar_square(reals(b), -1);
    lemma_product_of_roots(value(root_a), value(root_b), value(norm_a), value(norm_b));
    lemma_quotient(value, dot, magnitude, result);
    assert(length_product(reals(a), reals(b), value(magnitude)));
}

proof fn lemma_equal_squares(x: real, y: real)
    by (nonlinear_arith)
    requires
        x >= 0real,
        y >= 0real,
        x * x == y * y,
    ensures
        x == y,
{
}

proof fn lemma_cancels(x: real, y: real, z: real)
    by (nonlinear_arith)
    requires
        z != 0real,
        x * z == y * z,
    ensures
        x == y,
{
}

proof fn lemma_ratio_bounded(c: real, m: real, d: real)
    by (nonlinear_arith)
    requires
        m > 0real,
        c * m == d,
        d * d <= m * m,
    ensures
        -1real <= c <= 1real,
{
}

/// Two vectors have one cosine.
pub proof fn cosine_unique(a: Seq<real>, b: Seq<real>, c: real, d: real)
    requires
        real_cosine(a, b, c),
        real_cosine(a, b, d),
    ensures
        c == d,
{
    let m = choose|m: real| #[trigger]
        length_product(a, b, m) && if m == 0real {
            c == 0real
        } else {
            c * m == scalar_product(a, b)
        };
    let k = choose|k: real| #[trigger]
        length_product(a, b, k) && if k == 0real {
            d == 0real
        } else {
            d * k == scalar_product(a, b)
        };
    lemma_equal_squares(m, k);
    if m != 0real {
        lemma_cancels(c, d, m);
    }
}

/// The order of the vectors does not matter to the cosine.
pub proof fn cosine_symmetric(a: Seq<real>, b: Seq<real>, c: real)
    requires
        a.len() == b.len(),
        real_cosine(a, b, c),
    ensures
        real_cosine(b, a, c),
{
    let m = choose|m: real| #[trigger]
        length_product(a, b, m) && if m == 0real {
            c == 0real
        } else {
            c * m == scalar_product(a, b)
        };
    let f = |i: int| a[i] * b[i];
    let g = |i: int| b[i] * a[i];
    lemma_sum_equal(a.len(), f, g);
    lemma_commutes(scalar_product(a, a), scalar_product(b, b));
    assert(length_product(b, a, m));
}

/// A cosine lies between minus one and one.
pub proof fn cosine_bounded(a: Seq<real>, b: Seq<real>, c: real)
    requires
        a.len() == b.len(),
        real_cosine(a, b, c),
    ensures
        -1real <= c <= 1real,
{
    let m = choose|m: real| #[trigger]
        length_product(a, b, m) && if m == 0real {
            c == 0real
        } else {
            c * m == scalar_product(a, b)
        };
    lemma_cauchy_schwarz(a, b);
    if m != 0real {
        lemma_ratio_bounded(c, m, scalar_product(a, b));
    }
}

proof fn lemma_nonzero(a: Seq<real>, at: int)
    requires
        0 <= at < a.len(),
        a[at] != 0real,
    ensures
        scalar_product(a, a) > 0real,
{
    lemma_scalar_square(a, at);
    lemma_square(a[at]);
}

/// The cosine of a vector and a multiple of it is the sign of the factor. `at` is the place of a
/// component that is not zero.
pub proof fn cosine_of_multiple(a: Seq<real>, at: int, factor: real, b: Seq<real>, c: real)
    requires
        0 <= at < a.len(),
        a[at] != 0real,
        factor != 0real,
        b == a.map_values(|x: real| factor * x),
        real_cosine(a, b, c),
    ensures
        c == if factor > 0real {
            1real
        } else {
            -1real
        },
{
    let m = choose|m: real| #[trigger]
        length_product(a, b, m) && if m == 0real {
            c == 0real
        } else {
            c * m == scalar_product(a, b)
        };
    let aa = scalar_product(a, a);
    let square = |i: int| a[i] * a[i];
    let mixed = |i: int| a[i] * b[i];
    let scaled = |i: int| b[i] * b[i];
    lemma_nonzero(a, at);
    assert forall|i: int| 0 <= i < a.len() implies #[trigger] mixed(i) == factor * square(i) by {
        lemma_factor_moves(a[i], factor);
    }
    assert forall|i: int| 0 <= i < a.len() implies #[trigger] scaled(i) == factor * mixed(i) by {
        lemma_associates(factor, a[i], b[i]);
    }
    lemma_sum_scaled(a.len(), square, factor, mixed);
    lemma_sum_scaled(a.len(), mixed, factor, scaled);
    assert(scalar_product(a, b) == factor * aa);
    assert(scalar_product(b, b) == factor * (factor * aa));
    lemma_multiple(aa, factor, m, c);
}

proof fn lemma_factor_moves(x: real, factor: real)
    by (nonlinear_arith)
    ensures
        x * (factor * x) == factor * (x * x),
{
}

proof fn lemma_multiple(aa: real, factor: real, m: real, c: real)
    requires
        aa > 0real,
        factor != 0real,
        m >= 0real,
        m * m == aa * (factor * (factor * aa)),
        if m == 0real {
            c == 0real
        } else {
            c * m == factor * aa
        },
    ensures
        c == if factor > 0real {
            1real
        } else {
            -1real
        },
{
    let size = if factor > 0real {
        factor * aa
    } else {
        -(factor * aa)
    };
    lemma_multiple_size(aa, factor, size);
    assert(m * m == size * size) by {
        lemma_multiple_square(aa, factor, size);
    }
    lemma_equal_squares(m, size);
    lemma_units(m);
    if factor > 0real {
        lemma_cancels(c, 1real, m);
    } else {
        assert(c * m == -m);
        assert(-1real * m == -m);
        lemma_cancels(c, -1real, m);
    }
}

proof fn lemma_multiple_size(aa: real, factor: real, size: real)
    by (nonlinear_arith)
    requires
        aa > 0real,
        factor != 0real,
        size == if factor > 0real {
            factor * aa
        } else {
            -(factor * aa)
        },
    ensures
        size > 0real,
{
}

proof fn lemma_multiple_square(aa: real, factor: real, size: real)
    by (nonlinear_arith)
    requires
        size == factor * aa || size == -(factor * aa),
    ensures
        aa * (factor * (factor * aa)) == size * size,
{
}

/// The cosine of orthogonal vectors is zero.
pub proof fn cosine_of_orthogonal(a: Seq<real>, b: Seq<real>, c: real)
    requires
        scalar_product(a, b) == 0real,
        real_cosine(a, b, c),
    ensures
        c == 0real,
{
    let m = choose|m: real| #[trigger]
        length_product(a, b, m) && if m == 0real {
            c == 0real
        } else {
            c * m == scalar_product(a, b)
        };
    if m != 0real {
        lemma_units(m);
        lemma_cancels(c, 0real, m);
    }
}

proof fn lemma_divided<F: FloatResolution>(
    value: spec_fn(F) -> real,
    values: Seq<F>,
    norm: F,
    out: Seq<F>,
)
    requires
        exact(value),
        euclidean_norm(values, norm),
        value(norm) != 0real,
        crate::arithmetic::divided(values, norm, out),
    ensures
        scalar_product(out.map_values(value), out.map_values(value)) == 1real,
        forall|i: int|
            0 <= i < out.len() ==> value(#[trigger] out[i]) * value(norm) == value(values[i]),
{
    norm_is_length(value, values, norm);
    let (a, b) = (values.map_values(value), out.map_values(value));
    let k = value(norm) * value(norm);
    let before = |i: int| a[i] * a[i];
    let after = |i: int| b[i] * b[i];
    assert forall|i: int| 0 <= i < out.len() implies value(#[trigger] out[i]) * value(norm)
        == value(values[i]) by {
        assert(call_ensures(F::over, (values[i], norm), out[i]));
    }
    assert forall|i: int| 0 <= i < out.len() implies #[trigger] before(i) == k * after(i) by {
        assert(value(out[i]) * value(norm) == value(values[i]));
        lemma_squared_product(b[i], value(norm), a[i]);
    }
    lemma_sum_scaled(out.len(), after, k, before);
    lemma_square(value(norm));
    lemma_units(k);
    lemma_commutes(k, scalar_product(b, b));
    lemma_cancels(scalar_product(b, b), 1real, k);
}

proof fn lemma_squared_product(x: real, y: real, z: real)
    by (nonlinear_arith)
    requires
        x * y == z,
    ensures
        z * z == (y * y) * (x * x),
{
}

/// Normalising gives a vector of length one, and keeps one of length zero.
pub proof fn normalize_gives_unit_length<F: FloatResolution>(
    value: spec_fn(F) -> real,
    values: Seq<F>,
    out: Seq<F>,
)
    requires
        exact(value),
        normalized(values, out),
    ensures
        scalar_product(values.map_values(value), values.map_values(value)) == 0real ==> out
            == values,
        scalar_product(values.map_values(value), values.map_values(value)) != 0real
            ==> scalar_product(out.map_values(value), out.map_values(value)) == 1real,
{
    let (norm, zero, flat) = choose|norm: F, zero: F, flat: bool| #[trigger]
        normalize_steps(values, norm, zero, flat, out);
    norm_is_length(value, values, norm);
    lemma_square(value(norm));
    lemma_units(value(norm));
    if !flat {
        lemma_divided(value, values, norm, out);
    }
}

/// A scaled vector has length one, unless its length is zero: so has a random vector.
pub proof fn scaling_gives_unit_length<F: FloatResolution>(
    value: spec_fn(F) -> real,
    values: Seq<F>,
    out: Seq<F>,
)
    requires
        exact(value),
        unit_scaled(values, out),
    ensures
        scalar_product(values.map_values(value), values.map_values(value)) == 0real ==> out
            == values,
        scalar_product(values.map_values(value), values.map_values(value)) != 0real
            ==> scalar_product(out.map_values(value), out.map_values(value)) == 1real,
{
    let (norm, zero, positive) = choose|norm: F, zero: F, positive: bool| #[trigger]
        scale_steps(values, norm, zero, positive, out);
    norm_is_length(value, values, norm);
    lemma_square(value(norm));
    lemma_units(value(norm));
    if positive {
        lemma_divided(value, values, norm, out);
    }
}

/// The similarity of sign vectors is the mean of the products of their signs. It lies between
/// minus one and one, is one for equal vectors alone and minus one for opposite ones alone.
pub proof fn sign_similarity<F: FloatResolution>(
    value: spec_fn(F) -> real,
    a: Seq<bool>,
    b: Seq<bool>,
    result: F,
)
    requires
        combinable(a.len(), b.len()),
        exact(value),
        agreement(a.len(), mismatches(a, b), result),
    ensures
        value(result) * ((a.len() as int) as real) == dot_product(signs(a), signs(b)) as real,
        -1real <= value(result) <= 1real,
        value(result) == 1real <==> a == b,
        value(result) == -1real <==> b == not_bits(a),
{
    let (size, count) = (a.len(), mismatches(a, b));
    let (dim, wrong, two, twice, dot) = choose|
        dim: F,
        wrong: F,
        two: F,
        twice: F,
        dot: F,
    | #[trigger]
        agreement_steps(size, count, dim, wrong, two, twice, dot, result);
    let n = (size as int) as real;
    let m = (count as int) as real;
    assert(value(result) * n == n - 2real * m);
    dot_product_of_signs(a, b);
    mismatches_bounded(a, b);
    mismatches_of_equal(a, b);
    mismatches_of_opposite(a, b);
    lemma_mean(value(result), n, m);
}

proof fn lemma_mean(c: real, n: real, m: real)
    by (nonlinear_arith)
    requires
        n > 0real,
        0real <= m <= n,
        c * n == n - 2real * m,
    ensures
        -1real <= c <= 1real,
        c == 1real <==> m == 0real,
        c == -1real <==> m == n,
{
}

/// Both numbers that a serialised vector holds are no less than zero, so that parsing them gives
/// +1 everywhere: a vector comes back unchanged where it holds no -1, and nowhere else.
pub proof fn parse_of_serialized<F: FloatResolution>(
    value: spec_fn(F) -> real,
    before: Seq<bool>,
    values: Seq<F>,
    after: Seq<bool>,
)
    requires
        exact(value),
        serialized(before, values),
        parsed(values, after),
    ensures
        after == Seq::new(before.len(), |i: int| true),
        after == before <==> forall|i: int| 0 <= i < before.len() ==> before[i],
{
    let zero = choose|zero: F| #[trigger] parsed_against(values, zero, after);
    assert forall|i: int| 0 <= i < after.len() implies #[trigger] after[i] by {
        assert(call_ensures(F::at_least, (values[i], zero), after[i]));
        assert(value(values[i]) >= 0real);
    }
    assert(after =~= Seq::new(before.len(), |i: int| true));
    if forall|i: int| 0 <= i < before.len() ==> before[i] {
        assert(after =~= before);
    }
}

proof fn lemma_scalar_product_of_signs(
    a: Seq<bool>,
    b: Seq<bool>,
    xs: Seq<real>,
    ys: Seq<real>,
    count: nat,
)
    requires
        a.len() == b.len() == xs.len() == ys.len(),
        count <= a.len(),
        forall|i: int| 0 <= i < a.len() ==> #[trigger] xs[i] == sign(a[i]) as real,
        forall|i: int| 0 <= i < b.len() ==> #[trigger] ys[i] == sign(b[i]) as real,
    ensures
        real_sum(count, |i: int| xs[i] * ys[i]) == (count - 2 * mismatches(
            a.take(count as int),
            b.take(count as int),
        )) as real,
    decreases count,
{
    let (p, q) = (a.take(count as int), b.take(count as int));
    if count > 0 {
        let k = count - 1;
        lemma_scalar_product_of_signs(a, b, xs, ys, k as nat);
        assert(xor_bits(p, q).drop_last() =~= xor_bits(a.take(k), b.take(k)));
        assert(xs[k] == sign(a[k]) as real && ys[k] == sign(b[k]) as real);
        lemma_units(ys[k]);
        assert(-1real * ys[k] == -ys[k]);
    }
}

/// The similarity of two sign vectors is that of their accumulators.
pub proof fn similarity_agrees_with_accumulators<RM: IntResolution, F: FloatResolution>(
    value: spec_fn(F) -> real,
    a: Seq<bool>,
    b: Seq<bool>,
    normal: F,
    x: Seq<RM>,
    y: Seq<RM>,
    unnormal: F,
)
    requires
        combinable(a.len(), b.len()),
        exact(value),
        agreement(a.len(), mismatches(a, b), normal),
        integers(x) == signs(a),
        integers(y) == signs(b),
        integer_cosine(x, y, unnormal),
    ensures
        value(normal) == value(unnormal),
{
    let n = (a.len() as int) as real;
    let (xs, ys) = (reals(x), reals(y));
    assert(x.len() == integers(x).len() == signs(a).len());
    assert(y.len() == integers(y).len() == signs(b).len());
    assert forall|i: int| 0 <= i < a.len() implies #[trigger] xs[i] == sign(a[i]) as real by {
        assert(signs(a)[i] == sign(a[i]));
        assert(integers(x)[i] == x[i].as_int());
    }
    assert forall|i: int| 0 <= i < b.len() implies #[trigger] ys[i] == sign(b[i]) as real by {
        assert(signs(b)[i] == sign(b[i]));
        assert(integers(y)[i] == y[i].as_int());
    }
    assert(a.take(a.len() as int) =~= a && b.take(b.len() as int) =~= b);
    lemma_scalar_product_of_signs(a, b, xs, ys, a.len());
    lemma_scalar_product_of_signs(a, a, xs, xs, a.len());
    lemma_scalar_product_of_signs(b, b, ys, ys, a.len());
    mismatches_of_equal(a, a);
    mismatches_of_equal(b, b);
    sign_similarity(value, a, b, normal);
    dot_product_of_signs(a, b);
    assert(length_product(xs, ys, n));
    assert(real_cosine(xs, ys, value(normal)));
    unnormalized_similarity_is_cosine(value, x, y, unnormal);
    cosine_unique(xs, ys, value(normal), value(unnormal));
}

/// The vector with the sign of every component changed.
pub open spec fn opposite(a: Seq<real>) -> Seq<real> {
    a.map_values(|x: real| -x)
}

proof fn lemma_negation(x: real, y: real)
    by (nonlinear_arith)
    ensures
        x * (-y) == -1real * (x * y),
        (-x) * y == -(x * y),
        (-y) * (-y) == y * y,
{
}

/// The cosine changes its sign with one of the vectors.
pub proof fn cosine_of_opposite(a: Seq<real>, b: Seq<real>, c: real)
    requires
        a.len() == b.len(),
        real_cosine(a, b, c),
    ensures
        real_cosine(a, opposite(b), -c),
{
    let m = choose|m: real| #[trigger]
        length_product(a, b, m) && if m == 0real {
            c == 0real
        } else {
            c * m == scalar_product(a, b)
        };
    let nb = opposite(b);
    let mixed = |i: int| a[i] * b[i];
    let turned = |i: int| a[i] * nb[i];
    let square = |i: int| b[i] * b[i];
    let turned_square = |i: int| nb[i] * nb[i];
    assert forall|i: int| 0 <= i < a.len() implies #[trigger] turned(i) == -1real * mixed(i) by {
        lemma_negation(a[i], b[i]);
    }
    assert forall|i: int| 0 <= i < a.len() implies #[trigger] turned_square(i) == square(i) by {
        lemma_negation(a[i], b[i]);
    }
    lemma_sum_scaled(a.len(), mixed, -1real, turned);
    lemma_sum_equal(a.len(), turned_square, square);
    lemma_negation(c, m);
    assert(scalar_product(a, nb) == -scalar_product(a, b));
    assert(length_product(a, nb, m));
}

/// The similarity of accumulators changes its sign with one of them.
pub proof fn unnormalized_similarity_of_opposite<RM: IntResolution, F: FloatResolution>(
    value: spec_fn(F) -> real,
    a: Seq<RM>,
    b: Seq<RM>,
    result: F,
    turned: Seq<RM>,
    turned_result: F,
)
    requires
        combinable(a.len(), b.len()),
        exact(value),
        integers(turned) == integers(b).map_values(|n: int| -n),
        integer_cosine(a, b, result),
        integer_cosine(a, turned, turned_result),
    ensures
        value(turned_result) == -value(result),
{
    assert(turned.len() == integers(turned).len() == b.len());
    assert forall|i: int| 0 <= i < b.len() implies #[trigger] reals(turned)[i] == opposite(
        reals(b),
    )[i] by {
        assert(integers(turned)[i] == turned[i].as_int());
        assert(integers(b)[i] == b[i].as_int());
    }
    assert(reals(turned) =~= opposite(reals(b)));
    unnormalized_similarity_is_cosine(value, a, b, result);
    unnormalized_similarity_is_cosine(value, a, turned, turned_result);
    cosine_of_opposite(reals(a), reals(b), value(result));
    cosine_unique(reals(a), reals(turned), -value(result), value(turned_result));
}

proof fn lemma_signs_cancel<RM: IntResolution>(
    a: Seq<RM>,
    b: Seq<RM>,
    signs: Seq<bool>,
    x: Seq<RM>,
    y: Seq<RM>,
)
    requires
        a.len() == b.len() == signs.len(),
        integers(x) == sign_products(integers(a), signs),
        integers(y) == sign_products(integers(b), signs),
    ensures
        x.len() == a.len(),
        scalar_product(reals(x), reals(y)) == scalar_product(reals(a), reals(b)),
{
    assert(x.len() == integers(x).len() == a.len());
    assert(y.len() == integers(y).len() == b.len());
    let before = |i: int| reals(a)[i] * reals(b)[i];
    let after = |i: int| reals(x)[i] * reals(y)[i];
    assert forall|i: int| 0 <= i < a.len() implies #[trigger] after(i) == before(i) by {
        let (p, q) = (a[i].as_int(), b[i].as_int());
        assert(integers(x)[i] == x[i].as_int() && integers(a)[i] == p);
        assert(integers(y)[i] == y[i].as_int() && integers(b)[i] == q);
        assert(x[i].as_int() == p * sign(signs[i]) && y[i].as_int() == q * sign(signs[i]));
        assert(p * 1 == p && p * -1 == -p && q * 1 == q && q * -1 == -q);
        if !signs[i] {
            assert(reals(x)[i] == -reals(a)[i] && reals(y)[i] == -reals(b)[i]);
            lemma_negation(-reals(a)[i], reals(b)[i]);
            lemma_negation(reals(a)[i], reals(b)[i]);
        }
    }
    lemma_sum_equal(a.len(), after, before);
}

/// Binding both accumulators with the same vector keeps their similarity.
pub proof fn unnormalized_similarity_kept_by_bind<RM: IntResolution, F: FloatResolution>(
    value: spec_fn(F) -> real,
    a: Seq<RM>,
    b: Seq<RM>,
    result: F,
    c: Seq<bool>,
    x: Seq<RM>,
    y: Seq<RM>,
    bound_result: F,
)
    requires
        combinable(a.len(), b.len()),
        combinable(b.len(), c.len()),
        exact(value),
        integers(x) == sign_products(integers(a), c),
        integers(y) == sign_products(integers(b), c),
        integer_cosine(a, b, result),
        integer_cosine(x, y, bound_result),
    ensures
        value(bound_result) == value(result),
{
    lemma_signs_cancel(a, b, c, x, y);
    lemma_signs_cancel(a, a, c, x, x);
    lemma_signs_cancel(b, b, c, y, y);
    unnormalized_similarity_is_cosine(value, a, b, result);
    unnormalized_similarity_is_cosine(value, x, y, bound_result);
    let m = choose|m: real| #[trigger]
        length_product(reals(a), reals(b), m) && if m == 0real {
            value(result) == 0real
        } else {
            value(result) * m == scalar_product(reals(a), reals(b))
        };
    assert(length_product(reals(x), reals(y), m));
    cosine_unique(reals(x), reals(y), value(result), value(bound_result));
}

/// Normalising keeps the direction: the components of the result times the length of the
/// accumulator, which is positive, are those of the accumulator.
pub proof fn normalize_keeps_direction<F: FloatResolution>(
    value: spec_fn(F) -> real,
    values: Seq<F>,
    out: Seq<F>,
) -> (length: real)
    requires
        exact(value),
        normalized(values, out),
        scalar_product(values.map_values(value), values.map_values(value)) != 0real,
    ensures
        length > 0real,
        length * length == scalar_product(values.map_values(value), values.map_values(value)),
        out.len() == values.len(),
        forall|i: int|
            0 <= i < out.len() ==> value(#[trigger] out[i]) * length == value(values[i]),
{
    let (norm, zero, flat) = choose|norm: F, zero: F, flat: bool| #[trigger]
        normalize_steps(values, norm, zero, flat, out);
    norm_is_length(value, values, norm);
    lemma_units(value(norm));
    lemma_divided(value, values, norm, out);
    value(norm)
}

/// Normalising a second time changes nothing.
pub proof fn normalize_idempotent<F: FloatResolution>(
    value: spec_fn(F) -> real,
    values: Seq<F>,
    once: Seq<F>,
    twice: Seq<F>,
)
    requires
        exact(value),
        normalized(values, once),
        normalized(once, twice),
    ensures
        twice.map_values(value) == once.map_values(value),
{
    let a = once.map_values(value);
    normalize_gives_unit_length(value, values, once);
    normalize_gives_unit_length(value, once, twice);
    if scalar_product(a, a) != 0real {
        let length = normalize_keeps_direction(value, once, twice);
        lemma_units(1real);
        lemma_equal_squares(length, 1real);
        assert forall|i: int| 0 <= i < once.len() implies value(#[trigger] twice[i]) == value(
            once[i],
        ) by {
            assert(value(twice[i]) * length == value(once[i]));
            lemma_units(value(twice[i]));
        }
        assert(twice.map_values(value) =~= a);
    }
}

/// The components of a random vector are drawn from minus one on, and below one.
pub proof fn draws_within_range<F: FloatResolution>(value: spec_fn(F) -> real, draw: F)
    requires
        exact(value),
        within_unit_range(draw),
    ensures
        -1real <= value(draw) < 1real,
{
    let (zero, one, low) = choose|zero: F, one: F, low: F| #[trigger]
        range_steps(draw, zero, one, low);
    assert(value(low) == -1real);
}

/// Bundling adds, component by component, and keeps what is past the end of the vector.
pub proof fn bundle_adds<F: FloatResolution>(
    value: spec_fn(F) -> real,
    before: Seq<F>,
    vector: Seq<F>,
    after: Seq<F>,
)
    requires
        exact(value),
        added(before, vector, after),
    ensures
        after.len() == before.len(),
        forall|i: int|
            0 <= i < before.len() && i < vector.len() ==> value(#[trigger] after[i]) == value(
                before[i],
            ) + value(vector[i]),
        forall|i: int| vector.len() <= i < before.len() ==> #[trigger] after[i] == before[i],
{
}

/// Scaling keeps the direction: the components of the result times the length of the vector,
/// which is positive, are those of the vector. So a random vector points where its draws do.
pub proof fn scaling_keeps_direction<F: FloatResolution>(
    value: spec_fn(F) -> real,
    values: Seq<F>,
    out: Seq<F>,
) -> (length: real)
    requires
        exact(value),
        unit_scaled(values, out),
        scalar_product(values.map_values(value), values.map_values(value)) != 0real,
    ensures
        length > 0real,
        length * length == scalar_product(values.map_values(value), values.map_values(value)),
        out.len() == values.len(),
        forall|i: int|
            0 <= i < out.len() ==> value(#[trigger] out[i]) * length == value(values[i]),
{
    let (norm, zero, positive) = choose|norm: F, zero: F, positive: bool| #[trigger]
        scale_steps(values, norm, zero, positive, out);
    norm_is_length(value, values, norm);
    lemma_units(value(norm));
    lemma_divided(value, values, norm, out);
    value(norm)
}

/// A serialised vector holds one for +1 and zero for -1.
pub proof fn serialize_gives_ones_and_zeros<F: FloatResolution>(
    value: spec_fn(F) -> real,
    bits: Seq<bool>,
    values: Seq<F>,
)
    requires
        exact(value),
        serialized(bits, values),
    ensures
        values.len() == bits.len(),
        forall|i: int|
            0 <= i < bits.len() ==> value(#[trigger] values[i]) == if bits[i] {
                1real
            } else {
                0real
            },
{
}

/// A parsed vector holds +1 where the number is no less than zero, -1 elsewhere.
pub proof fn parse_reads_signs<F: FloatResolution>(
    value: spec_fn(F) -> real,
    values: Seq<F>,
    bits: Seq<bool>,
)
    requires
        exact(value),
        parsed(values, bits),
    ensures
        bits.len() == values.len(),
        forall|i: int| 0 <= i < bits.len() ==> (#[trigger] bits[i] <==> value(values[i]) >= 0real),
{
    let zero = choose|zero: F| #[trigger] parsed_against(values, zero, bits);
    assert forall|i: int| 0 <= i < bits.len() implies (#[trigger] bits[i] <==> value(values[i])
        >= 0real) by {
        assert(call_ensures(F::at_least, (values[i], zero), bits[i]));
    }
}

} // verus!
