//! What the operations come to where every arithmetic operation is rounded: the results stay
//! within a bound of the real ones, whatever the size of the vectors.

use vstd::prelude::*;

use crate::arithmetic::{accumulated, added, agreement, agreement_steps, conversion, converted};
use crate::arithmetic::{euclidean_norm, norm_steps, normalize_steps, normalized, partial_sums};
use crate::arithmetic::{divided, products, quotient, quotient_steps, scale_steps, unit_scaled};
use crate::holographic::{cosine, cosine_steps};
use crate::laws::exact::reals;
use crate::laws::real_sums::{lemma_associates, lemma_commutes, lemma_distributes};
use crate::laws::real_sums::lemma_products_interchange;
use crate::laws::real_sums::{lemma_scalar_square, lemma_square, lemma_sum_equal, lemma_units};
use crate::laws::real_sums::{real_sum, scalar_product};
use crate::multiply_add_permute::{integer_cosine, integer_cosine_steps, parsed, parsed_against};
use crate::multiply_add_permute::serialized;
use crate::resolution::{FloatResolution, IntResolution};
use crate::storage::combinable;

verus! {

/// The absolute value.
pub open spec fn magnitude(x: real) -> real {
    if x < 0real {
        -x
    } else {
        x
    }
}

/// The arithmetic is rounded: with `value` for the real number that a value stands for, what an
/// operation gives differs from the real result by no more than the part `u` of it. Comparisons,
/// zero and one are exact, and a total is added up in order.
pub open spec fn rounded<F: FloatResolution>(value: spec_fn(F) -> real, u: real) -> bool {
    &&& 0real <= u && 8real * u <= 1real
    &&& forall|r: F| #[trigger] call_ensures(F::zero, (), r) ==> value(r) == 0real
    &&& forall|r: F| #[trigger] call_ensures(F::one, (), r) ==> value(r) == 1real
    &&& forall|n: usize, r: F| #[trigger]
        call_ensures(F::from_count, (n,), r) ==> magnitude(value(r) - (n as int) as real) <= u * ((
        n as int) as real)
    &&& forall|n: i128, r: F| #[trigger]
        call_ensures(F::from_integer, (n,), r) ==> magnitude(value(r) - (n as int) as real) <= u
            * magnitude((n as int) as real)
    &&& forall|x: F, y: F, r: F| #[trigger]
        call_ensures(F::plus, (x, y), r) ==> magnitude(value(r) - (value(x) + value(y))) <= u
            * magnitude(value(x) + value(y))
    &&& forall|x: F, y: F, r: F| #[trigger]
        call_ensures(F::minus, (x, y), r) ==> magnitude(value(r) - (value(x) - value(y))) <= u
            * magnitude(value(x) - value(y))
    &&& forall|x: F, y: F, r: F| #[trigger]
        call_ensures(F::times, (x, y), r) ==> magnitude(value(r) - value(x) * value(y)) <= u
            * magnitude(value(x) * value(y))
    &&& forall|x: F, y: F, r: F| #[trigger]
        call_ensures(F::over, (x, y), r) && value(y) != 0real ==> magnitude(
            value(r) * value(y) - value(x),
        ) <= u * magnitude(value(x))
    &&& forall|x: F, r: F| #[trigger]
        call_ensures(F::squared, (x,), r) ==> magnitude(value(r) - value(x) * value(x)) <= u
            * magnitude(value(x) * value(x))
    &&& forall|x: F, r: F| #[trigger]
        call_ensures(F::square_root, (x,), r) && value(x) >= 0real ==> value(r) >= 0real && ((1real
            - u) * (1real - u)) * value(x) <= value(r) * value(r) <= ((1real + u) * (1real + u))
            * value(x)
    &&& forall|terms: Vec<F>, r: F| #[trigger]
        call_ensures(F::total, (&terms,), r) ==> magnitude(
            value(r) - real_sum(terms@.len(), |i: int| value(terms@[i])),
        ) <= (inflation(u, terms@.len()) - 1real) * real_sum(
            terms@.len(),
            |i: int| magnitude(value(terms@[i])),
        )
    &&& forall|x: F, y: F, r: bool| #[trigger]
        call_ensures(F::equals, (x, y), r) ==> r == (value(x) == value(y))
    &&& forall|x: F, y: F, r: bool| #[trigger]
        call_ensures(F::exceeds, (x, y), r) ==> r == (value(x) > value(y))
    &&& forall|x: F, y: F, r: bool| #[trigger]
        call_ensures(F::at_least, (x, y), r) ==> r == (value(x) >= value(y))
}

/// By how much `steps` roundings can make a number larger: `1 + u`, to the power `steps`.
pub open spec fn inflation(u: real, steps: nat) -> real
    decreases steps,
{
    if steps == 0 {
        1real
    } else {
        inflation(u, (steps - 1) as nat) * (1real + u)
    }
}

pub(crate) proof fn lemma_monotone(u: real, x: real, y: real)
    by (nonlinear_arith)
    requires
        u >= 0real,
        x <= y,
    ensures
        u * x <= u * y,
        x * u <= y * u,
{
}

pub(crate) proof fn lemma_nonnegative(x: real, y: real)
    by (nonlinear_arith)
    requires
        x >= 0real,
        y >= 0real,
    ensures
        x * y >= 0real,
{
}

pub(crate) proof fn lemma_magnitude_of_product(x: real, y: real)
    by (nonlinear_arith)
    ensures
        magnitude(x * y) == magnitude(x) * magnitude(y),
{
}

proof fn lemma_inflation_at_least_one(u: real, steps: nat)
    requires
        u >= 0real,
    ensures
        inflation(u, steps) >= 1real,
    decreases steps,
{
    if steps > 0 {
        let before = inflation(u, (steps - 1) as nat);
        lemma_inflation_at_least_one(u, (steps - 1) as nat);
        lemma_distributes(before, 1real, u);
        lemma_units(before);
        lemma_nonnegative(before, u);
    }
}

proof fn lemma_inflation_of_sum(u: real, m: nat, n: nat)
    ensures
        inflation(u, m + n) == inflation(u, m) * inflation(u, n),
    decreases n,
{
    if n == 0 {
        lemma_units(inflation(u, m));
    } else {
        lemma_inflation_of_sum(u, m, (n - 1) as nat);
        assert((m + n - 1) as nat == m + (n - 1) as nat);
        lemma_associates(inflation(u, m), inflation(u, (n - 1) as nat), 1real + u);
    }
}

/// One more rounding: `near` is within the part `f - 1` of `x`, and `rounding` within the part `u`
/// of `near`.
proof fn lemma_one_more_rounding(x: real, near: real, rounding: real, f: real, u: real, s: real)
    requires
        f >= 1real,
        u >= 0real,
        magnitude(x) <= s,
        magnitude(near - x) <= (f - 1real) * s,
        magnitude(rounding - near) <= u * magnitude(near),
    ensures
        magnitude(near) <= f * s,
        magnitude(rounding - x) <= (f * (1real + u) - 1real) * s,
{
    lemma_distributes(s, f, -1real);
    lemma_units(s);
    assert((f - 1real) * s == f * s - s) by {
        assert((f + (-1real)) * s == f * s + (-1real) * s);
        assert((-1real) * s == -s);
    }
    lemma_monotone(u, magnitude(near), f * s);
    let g = f * (1real + u);
    lemma_distributes(f, 1real, u);
    lemma_units(f);
    lemma_distributes(s, f, f * u);
    lemma_distributes(s, g, -1real);
    assert((-1real) * s == -s);
    assert(g * s == f * s + (f * u) * s);
    assert((f * u) * s == u * (f * s)) by {
        lemma_commutes(f, u);
        lemma_associates(u, f, s);
    }
    assert((g - 1real) * s == g * s - s);
}

/// Bundling adds up to rounding, component by component, and keeps what is past the end of the
/// vector.
pub proof fn bundle_adds_rounded<F: FloatResolution>(
    value: spec_fn(F) -> real,
    u: real,
    before: Seq<F>,
    vector: Seq<F>,
    after: Seq<F>,
)
    requires
        rounded(value, u),
        added(before, vector, after),
    ensures
        after.len() == before.len(),
        forall|i: int|
            0 <= i < before.len() && i < vector.len() ==> magnitude(
                value(#[trigger] after[i]) - (value(before[i]) + value(vector[i])),
            ) <= u * magnitude(value(before[i]) + value(vector[i])),
        forall|i: int| vector.len() <= i < before.len() ==> #[trigger] after[i] == before[i],
{
}

pub(crate) proof fn lemma_product_bound(x: real, y: real, p: real, q: real)
    requires
        magnitude(x) <= p,
        magnitude(y) <= q,
    ensures
        magnitude(x * y) <= p * q,
{
    lemma_magnitude_of_product(x, y);
    lemma_monotone(magnitude(x), magnitude(y), q);
    lemma_monotone(q, magnitude(x), p);
}

proof fn lemma_moves_out(u: real, k: real, n: real)
    by (nonlinear_arith)
    ensures
        u * (k * n) == k * (u * n),
        (k * u) * n == k * (u * n),
{
}

/// The part `u` of what is no more than `k` times `n`.
pub(crate) proof fn lemma_part(u: real, x: real, k: real, n: real)
    requires
        u >= 0real,
        x <= k * n,
    ensures
        u * x <= k * (u * n),
{
    lemma_monotone(u, x, k * n);
    lemma_moves_out(u, k, n);
}

proof fn lemma_part_of_size(u: real, n: real)
    requires
        0real <= u,
        8real * u <= 1real,
        n >= 0real,
    ensures
        0real <= 8real * (u * n) <= n,
{
    lemma_nonnegative(u, n);
    lemma_monotone(n, 8real * u, 1real);
    lemma_moves_out(u, 8real, n);
    lemma_commutes(n, 8real * u);
    lemma_units(n);
}

/// Two times the mismatches.
proof fn lemma_twice(u: real, n: real, m: real, t: real, c: real, twice: real)
    requires
        0real <= u,
        8real * u <= 1real,
        0real <= m <= n,
        magnitude(t - 2real) <= 2real * u,
        magnitude(c - m) <= u * m,
        magnitude(twice - t * c) <= u * magnitude(t * c),
    ensures
        magnitude(twice - 2real * m) <= 7real * (u * n),
{
    let w = u * n;
    let (first, second) = (t * (c - m), (t - 2real) * m);
    lemma_part_of_size(u, n);
    lemma_monotone(u, m, n);
    lemma_product_bound(4real * t, c - m, 9real, w);
    lemma_associates(4real, t, c - m);
    lemma_product_bound(t - 2real, m, 2real * u, n);
    lemma_moves_out(u, 2real, n);
    lemma_distributes(t, c - m, m);
    lemma_distributes(m, t - 2real, 2real);
    assert(t * c == first + t * m);
    assert(t * m == second + 2real * m);
    assert(4real * magnitude(t * c - 2real * m) <= 17real * w);
    assert(32real * magnitude(t * c) <= 81real * n);
    lemma_part(u, 32real * magnitude(t * c), 81real, n);
    lemma_moves_out(u, 32real, magnitude(t * c));
}

/// The size less that.
proof fn lemma_dot(u: real, n: real, m: real, d: real, twice: real, dot: real)
    requires
        0real <= u,
        8real * u <= 1real,
        0real <= m <= n,
        magnitude(d - n) <= u * n,
        magnitude(twice - 2real * m) <= 7real * (u * n),
        magnitude(dot - (d - twice)) <= u * magnitude(d - twice),
    ensures
        magnitude(dot - (n - 2real * m)) <= 10real * (u * n),
        4real * magnitude(dot) <= 9real * n,
{
    lemma_part_of_size(u, n);
    lemma_part(u, magnitude(d - twice), 2real, n);
}

/// The quotient.
proof fn lemma_mean(u: real, n: real, m: real, d: real, dot: real, r: real)
    requires
        0real <= u,
        8real * u <= 1real,
        0real <= m <= n,
        n > 0real,
        magnitude(d - n) <= u * n,
        magnitude(dot - (n - 2real * m)) <= 10real * (u * n),
        4real * magnitude(dot) <= 9real * n,
        magnitude(r * d - dot) <= u * magnitude(dot),
    ensures
        magnitude(r * n - (n - 2real * m)) <= 16real * (u * n),
{
    let w = u * n;
    lemma_part_of_size(u, n);
    lemma_part(u, 4real * magnitude(dot), 9real, n);
    lemma_moves_out(u, 4real, magnitude(dot));
    assert(4real * magnitude(r * d - dot) <= 9real * w);
    assert(32real * magnitude(r * d) <= 81real * n);
    lemma_magnitude_of_product(r, d);
    lemma_quotient_bound(magnitude(r), d, n);
    lemma_product_bound(r, n - d, 3real, w);
    lemma_distributes(r, d, n - d);
    assert(r * n == r * d + r * (n - d));
}

proof fn lemma_quotient_bound(r: real, d: real, n: real)
    by (nonlinear_arith)
    requires
        n > 0real,
        8real * d >= 7real * n,
        32real * (r * d) <= 81real * n,
        r >= 0real,
    ensures
        r <= 3real,
{
}

/// The similarity of bit vectors, times their size, is the size less two for each mismatch, up to
/// sixteen times the part `u` of the size. So whatever the size, the similarity of a vector with
/// itself is near one, and that with its opposite near minus one.
pub proof fn agreement_rounded<F: FloatResolution>(
    value: spec_fn(F) -> real,
    u: real,
    size: nat,
    mismatches: nat,
    result: F,
)
    requires
        rounded(value, u),
        mismatches <= size,
        size > 0,
        agreement(size, mismatches, result),
    ensures
        magnitude(
            value(result) * ((size as int) as real) - (size as int - 2 * mismatches) as real,
        ) <= 16real * (u * ((size as int) as real)),
{
    let (dim, wrong, two, twice, dot) = choose|
        dim: F,
        wrong: F,
        two: F,
        twice: F,
        dot: F,
    | #[trigger]
        agreement_steps(size, mismatches, dim, wrong, two, twice, dot, result);
    let (n, m) = ((size as int) as real, (mismatches as int) as real);
    lemma_commutes(u, 2real);
    lemma_twice(u, n, m, value(two), value(wrong), value(twice));
    lemma_dot(u, n, m, value(dim), value(twice), value(dot));
    lemma_part_of_size(u, n);
    lemma_mean(u, n, m, value(dim), value(dot), value(result));
    assert((size as int - 2 * mismatches) as real == n - 2real * m);
}

/// Sums of numbers that are near each other, place by place.
pub(crate) proof fn lemma_sums_near(
    n: nat,
    f: spec_fn(int) -> real,
    g: spec_fn(int) -> real,
    s: spec_fn(int) -> real,
    h: real,
)
    requires
        forall|i: int| 0 <= i < n ==> magnitude(#[trigger] f(i) - g(i)) <= h * s(i),
    ensures
        magnitude(real_sum(n, f) - real_sum(n, g)) <= h * real_sum(n, s),
    decreases n,
{
    if n == 0 {
        lemma_units(h);
    } else {
        let k = (n - 1) as nat;
        lemma_sums_near(k, f, g, s, h);
        assert(magnitude(f(n - 1) - g(n - 1)) <= h * s(n - 1));
        lemma_distributes(h, real_sum(k, s), s(n - 1));
    }
}

pub(crate) proof fn lemma_sum_bounded(
    n: nat,
    f: spec_fn(int) -> real,
    g: spec_fn(int) -> real,
    h: real,
)
    requires
        forall|i: int| 0 <= i < n ==> #[trigger] f(i) <= h * g(i),
    ensures
        real_sum(n, f) <= h * real_sum(n, g),
    decreases n,
{
    if n == 0 {
        lemma_units(h);
    } else {
        let k = (n - 1) as nat;
        lemma_sum_bounded(k, f, g, h);
        assert(f(n - 1) <= h * g(n - 1));
        lemma_distributes(h, real_sum(k, g), g(n - 1));
    }
}

/// The magnitudes of a sum's terms add up to no less than the magnitude of the sum.
pub(crate) proof fn lemma_sum_magnitude(n: nat, f: spec_fn(int) -> real)
    ensures
        0real <= magnitude(real_sum(n, f)) <= real_sum(n, |i: int| magnitude(f(i))),
    decreases n,
{
    if n > 0 {
        lemma_sum_magnitude((n - 1) as nat, f);
    }
}

/// A sum, computed with the inflation `f`, of terms that were computed with the inflation `h`.
proof fn lemma_total_near(
    n: nat,
    terms: spec_fn(int) -> real,
    real_terms: spec_fn(int) -> real,
    f: real,
    h: real,
    sum: real,
)
    requires
        f >= 1real,
        h >= 1real,
        forall|i: int|
            0 <= i < n ==> magnitude(#[trigger] terms(i) - real_terms(i)) <= (h - 1real)
                * magnitude(real_terms(i)),
        magnitude(sum - real_sum(n, terms)) <= (f - 1real) * real_sum(
            n,
            |i: int| magnitude(terms(i)),
        ),
    ensures
        magnitude(sum - real_sum(n, real_terms)) <= (f * h - 1real) * real_sum(
            n,
            |i: int| magnitude(real_terms(i)),
        ),
{
    let sizes = |i: int| magnitude(real_terms(i));
    let computed = |i: int| magnitude(terms(i));
    let s = real_sum(n, sizes);
    lemma_sums_near(n, terms, real_terms, sizes, h - 1real);
    assert forall|i: int| 0 <= i < n implies #[trigger] computed(i) <= h * sizes(i) by {
        assert(magnitude(terms(i) - real_terms(i)) <= (h - 1real) * magnitude(real_terms(i)));
        lemma_distributes(sizes(i), h, -1real);
        assert((h - 1real) * sizes(i) == h * sizes(i) - sizes(i)) by {
            assert((h + (-1real)) * sizes(i) == h * sizes(i) + (-1real) * sizes(i));
            assert((-1real) * sizes(i) == -sizes(i));
        }
    }
    lemma_sum_bounded(n, computed, sizes, h);
    lemma_monotone(f - 1real, real_sum(n, computed), h * s);
    lemma_inflated_twice(f, h, s);
}

proof fn lemma_inflated_twice(f: real, h: real, s: real)
    by (nonlinear_arith)
    ensures
        (f - 1real) * (h * s) + (h - 1real) * s == (f * h - 1real) * s,
{
}

proof fn lemma_partial_sum_near<F: FloatResolution>(
    value: spec_fn(F) -> real,
    u: real,
    terms: Seq<F>,
    partial: Seq<F>,
    count: nat,
)
    requires
        rounded(value, u),
        partial_sums(terms, partial),
        count <= terms.len(),
    ensures
        magnitude(
            value(partial[count as int]) - real_sum(count, |i: int| value(terms[i])),
        ) <= (inflation(u, count) - 1real) * real_sum(count, |i: int| magnitude(value(terms[i]))),
    decreases count,
{
    let f = |i: int| value(terms[i]);
    let s = |i: int| magnitude(value(terms[i]));
    if count == 0 {
        lemma_units(0real);
    } else {
        let k = count - 1;
        lemma_partial_sum_near(value, u, terms, partial, k as nat);
        lemma_inflation_at_least_one(u, k as nat);
        lemma_sum_magnitude(k as nat, f);
        lemma_sum_equal(k as nat, s, |i: int| magnitude(f(i)));
        assert(call_ensures(F::plus, (partial[k], terms[k]), partial[k + 1]));
        lemma_partial_step(
            u,
            inflation(u, k as nat),
            value(partial[k]),
            real_sum(k as nat, f),
            real_sum(k as nat, s),
            value(terms[k]),
            value(partial[k + 1]),
        );
    }
}

proof fn lemma_partial_step(u: real, f: real, p: real, sum: real, s: real, t: real, next: real)
    requires
        u >= 0real,
        f >= 1real,
        magnitude(sum) <= s,
        magnitude(p - sum) <= (f - 1real) * s,
        magnitude(next - (p + t)) <= u * magnitude(p + t),
    ensures
        magnitude(next - (sum + t)) <= (f * (1real + u) - 1real) * (s + magnitude(t)),
{
    let (near, x, total) = (p + t, sum + t, s + magnitude(t));
    lemma_monotone(f - 1real, s, total);
    lemma_one_more_rounding(x, near, next, f, u, total);
}

proof fn lemma_accumulated_near<F: FloatResolution>(
    value: spec_fn(F) -> real,
    u: real,
    terms: Seq<F>,
    sum: F,
)
    requires
        rounded(value, u),
        accumulated(terms, sum),
    ensures
        magnitude(value(sum) - real_sum(terms.len(), |i: int| value(terms[i]))) <= (inflation(
            u,
            terms.len(),
        ) - 1real) * real_sum(terms.len(), |i: int| magnitude(value(terms[i]))),
{
    let partial = choose|partial: Seq<F>| #[trigger]
        partial_sums(terms, partial) && partial.last() == sum;
    lemma_partial_sum_near(value, u, terms, partial, terms.len());
}

/// `length` is the root of `square`, up to the inflation of the terms of `square` and the rounding
/// of the root.
pub open spec fn near_root(u: real, growth: real, square: real, length: real) -> bool {
    &&& length >= 0real
    &&& length * length <= ((1real + u) * (1real + u)) * (growth * square)
    &&& length * length >= ((1real - u) * (1real - u)) * ((2real - growth) * square)
}

proof fn lemma_near_root(u: real, growth: real, square: real, sum: real, root: real)
    requires
        0real <= u,
        8real * u <= 1real,
        1real <= growth <= 2real,
        square >= 0real,
        magnitude(sum - square) <= (growth - 1real) * square,
        root >= 0real,
        sum >= 0real ==> ((1real - u) * (1real - u)) * sum <= root * root <= ((1real + u) * (1real
            + u)) * sum,
    ensures
        sum >= 0real,
        near_root(u, growth, square, root),
        square > 0real && growth < 2real ==> root > 0real,
        square == 0real ==> root == 0real,
{
    let (low, high) = ((1real - u) * (1real - u), (1real + u) * (1real + u));
    let (f, g) = (growth * square, (2real - growth) * square);
    assert((growth - 1real) * square == f - square && g == 2real * square - f) by {
        lemma_distributes(square, growth, -1real);
        lemma_distributes(square, 2real, -growth);
        assert((growth + (-1real)) * square == growth * square + (-1real) * square);
        assert((-1real) * square == -square);
        assert((2real + (-growth)) * square == 2real * square + (-growth) * square);
        assert((-growth) * square == -(growth * square)) by (nonlinear_arith);
    }
    lemma_nonnegative(2real - growth, square);
    lemma_square(1real - u);
    lemma_square(1real + u);
    lemma_monotone(high, sum, f);
    lemma_monotone(low, g, sum);
    if square > 0real && growth < 2real {
        lemma_positive(2real - growth, square);
        lemma_positive(1real - u, 1real - u);
        lemma_positive(low, g);
        if root == 0real {
            lemma_units(root);
        }
    }
    if square == 0real {
        lemma_units(growth);
        lemma_units(high);
        lemma_square(root);
    }
}

proof fn lemma_positive(x: real, y: real)
    by (nonlinear_arith)
    requires
        x > 0real,
        y > 0real,
    ensures
        x * y > 0real,
{
}

/// The Euclidean norm is the length, up to as many roundings as there are components and two more.
pub proof fn norm_rounded<F: FloatResolution>(
    value: spec_fn(F) -> real,
    u: real,
    values: Seq<F>,
    norm: F,
)
    requires
        rounded(value, u),
        inflation(u, values.len() + 1) < 2real,
        euclidean_norm(values, norm),
    ensures
        near_root(
            u,
            inflation(u, values.len() + 1),
            scalar_product(values.map_values(value), values.map_values(value)),
            value(norm),
        ),
        scalar_product(values.map_values(value), values.map_values(value)) == 0real <==> value(norm)
            == 0real,
{
    let (terms, sum) = choose|terms: Vec<F>, sum: F| #[trigger]
        norm_steps(values, terms, sum, norm);
    let n = values.len();
    let a = values.map_values(value);
    let computed = |i: int| value(terms@[i]);
    let squares = |i: int| a[i] * a[i];
    assert forall|i: int| 0 <= i < n implies magnitude(#[trigger] computed(i) - squares(i)) <= ((
    1real + u) - 1real) * magnitude(squares(i)) by {
        assert(call_ensures(F::squared, (values[i],), terms@[i]));
    }
    lemma_inflation_at_least_one(u, n);
    lemma_inflation_at_least_one(u, n + 1);
    lemma_sum_equal(n, |i: int| magnitude(value(terms@[i])), |i: int| magnitude(computed(i)));
    lemma_total_near(n, computed, squares, inflation(u, n), 1real + u, value(sum));
    assert forall|i: int| 0 <= i < n implies magnitude(#[trigger] squares(i)) == squares(i) by {
        lemma_square(a[i]);
    }
    let sizes = |i: int| magnitude(squares(i));
    assert forall|i: int| 0 <= i < n implies #[trigger] sizes(i) == squares(i) by {
        assert(magnitude(squares(i)) == squares(i));
    }
    lemma_sum_equal(n, sizes, squares);
    lemma_scalar_square(a, -1);
    let aa = scalar_product(a, a);
    assert(inflation(u, n) * (1real + u) == inflation(u, n + 1));
    assert(magnitude(value(sum) - aa) <= (inflation(u, n + 1) - 1real) * aa);
    assert(value(sum) >= 0real) by {
        lemma_monotone(aa, inflation(u, n + 1) - 1real, 1real);
        lemma_commutes(aa, inflation(u, n + 1) - 1real);
        lemma_units(aa);
    }
    lemma_near_root(u, inflation(u, n + 1), aa, value(sum), value(norm));
}

proof fn lemma_divided_rounded<F: FloatResolution>(
    value: spec_fn(F) -> real,
    u: real,
    values: Seq<F>,
    norm: F,
    out: Seq<F>,
)
    requires
        rounded(value, u),
        value(norm) != 0real,
        divided(values, norm, out),
    ensures
        forall|i: int|
            0 <= i < out.len() ==> magnitude(
                value(#[trigger] out[i]) * value(norm) - value(values[i]),
            ) <= u * magnitude(value(values[i])),
{
    assert forall|i: int| 0 <= i < out.len() implies magnitude(
        value(#[trigger] out[i]) * value(norm) - value(values[i]),
    ) <= u * magnitude(value(values[i])) by {
        assert(call_ensures(F::over, (values[i], norm), out[i]));
    }
}

/// Normalising divides by the length, up to rounding; an accumulator of length zero stays.
pub proof fn normalize_rounded<F: FloatResolution>(
    value: spec_fn(F) -> real,
    u: real,
    values: Seq<F>,
    out: Seq<F>,
) -> (length: real)
    requires
        rounded(value, u),
        inflation(u, values.len() + 1) < 2real,
        normalized(values, out),
    ensures
        near_root(
            u,
            inflation(u, values.len() + 1),
            scalar_product(values.map_values(value), values.map_values(value)),
            length,
        ),
        out.len() == values.len(),
        length == 0real ==> out == values,
        length != 0real ==> forall|i: int|
            0 <= i < out.len() ==> magnitude(value(#[trigger] out[i]) * length - value(values[i]))
                <= u * magnitude(value(values[i])),
{
    let (norm, zero, flat) = choose|norm: F, zero: F, flat: bool| #[trigger]
        normalize_steps(values, norm, zero, flat, out);
    norm_rounded(value, u, values, norm);
    if value(norm) != 0real {
        lemma_divided_rounded(value, u, values, norm, out);
    }
    value(norm)
}

/// Scaling divides by the length, up to rounding; a vector of length zero stays. So a random
/// vector points where its draws do.
pub proof fn scaling_rounded<F: FloatResolution>(
    value: spec_fn(F) -> real,
    u: real,
    values: Seq<F>,
    out: Seq<F>,
) -> (length: real)
    requires
        rounded(value, u),
        inflation(u, values.len() + 1) < 2real,
        unit_scaled(values, out),
    ensures
        near_root(
            u,
            inflation(u, values.len() + 1),
            scalar_product(values.map_values(value), values.map_values(value)),
            length,
        ),
        out.len() == values.len(),
        length == 0real ==> out == values,
        length != 0real ==> forall|i: int|
            0 <= i < out.len() ==> magnitude(value(#[trigger] out[i]) * length - value(values[i]))
                <= u * magnitude(value(values[i])),
{
    let (norm, zero, positive) = choose|norm: F, zero: F, positive: bool| #[trigger]
        scale_steps(values, norm, zero, positive, out);
    norm_rounded(value, u, values, norm);
    if value(norm) != 0real {
        lemma_divided_rounded(value, u, values, norm, out);
    }
    value(norm)
}

/// The sum of the magnitudes of the products of the components.
pub open spec fn product_magnitudes(a: Seq<real>, b: Seq<real>) -> real {
    real_sum(a.len(), |i: int| magnitude(a[i] * b[i]))
}

/// `c` is the cosine of the two vectors up to rounding: `left` and `right` are near their lengths,
/// `both` is near the product of the lengths, and `c` times that is near the scalar product.
/// `growth` is how much the terms of the sums are inflated.
pub open spec fn near_cosine(
    u: real,
    growth: real,
    a: Seq<real>,
    b: Seq<real>,
    left: real,
    right: real,
    both: real,
    c: real,
) -> bool {
    &&& near_root(u, growth, scalar_product(a, a), left)
    &&& near_root(u, growth, scalar_product(b, b), right)
    &&& magnitude(both - left * right) <= u * (left * right)
    &&& scalar_product(a, a) != 0real && scalar_product(b, b) != 0real ==> both > 0real
    &&& both == 0real ==> c == 0real
    &&& both != 0real ==> magnitude(c * both - scalar_product(a, b)) <= (growth * (1real + u)
        - 1real) * product_magnitudes(a, b)
}

proof fn lemma_near_cosine<F: FloatResolution>(
    value: spec_fn(F) -> real,
    u: real,
    growth: real,
    a: Seq<real>,
    b: Seq<real>,
    dot: F,
    left: real,
    right: real,
    both: F,
    result: F,
)
    requires
        rounded(value, u),
        1real <= growth,
        near_root(u, growth, scalar_product(a, a), left),
        near_root(u, growth, scalar_product(b, b), right),
        scalar_product(a, a) != 0real ==> left > 0real,
        scalar_product(b, b) != 0real ==> right > 0real,
        magnitude(value(both) - left * right) <= u * magnitude(left * right),
        magnitude(value(dot) - scalar_product(a, b)) <= (growth - 1real) * product_magnitudes(a, b),
        quotient(dot, both, result),
    ensures
        near_cosine(u, growth, a, b, left, right, value(both), value(result)),
{
    let (zero, flat) = choose|zero: F, flat: bool| #[trigger]
        quotient_steps(dot, both, zero, flat, result);
    lemma_nonnegative(left, right);
    if scalar_product(a, a) != 0real && scalar_product(b, b) != 0real {
        lemma_positive(left, right);
        let x = left * right;
        lemma_monotone(x, 8real * u, 1real);
        lemma_units(x);
        lemma_moves_out(x, 8real, u);
        lemma_commutes(x, u);
    }
    let products = |i: int| a[i] * b[i];
    lemma_sum_magnitude(a.len(), products);
    lemma_sum_equal(
        a.len(),
        |i: int| magnitude(a[i] * b[i]),
        |i: int| magnitude(products(i)),
    );
    if value(both) != 0real {
        lemma_one_more_rounding(
            scalar_product(a, b),
            value(dot),
            value(result) * value(both),
            growth,
            u,
            product_magnitudes(a, b),
        );
    }
}

/// The similarity of holographic vectors is their cosine up to rounding, whatever their size.
pub proof fn similarity_rounded<R: FloatResolution>(
    value: spec_fn(R) -> real,
    u: real,
    a: Seq<R>,
    b: Seq<R>,
    result: R,
) -> (lengths: (real, real, real))
    requires
        combinable(a.len(), b.len()),
        rounded(value, u),
        inflation(u, a.len() + 1) < 2real,
        cosine(a, b, result),
    ensures
        near_cosine(
            u,
            inflation(u, a.len() + 1),
            a.map_values(value),
            b.map_values(value),
            lengths.0,
            lengths.1,
            lengths.2,
            value(result),
        ),
{
    let (terms, dot, left, right, both) = choose|
        terms: Vec<R>,
        dot: R,
        left: R,
        right: R,
        both: R,
    | #[trigger]
        cosine_steps(a, b, terms, dot, left, right, both, result);
    let n = a.len();
    let (xs, ys) = (a.map_values(value), b.map_values(value));
    let computed = |i: int| value(terms@[i]);
    let real_terms = |i: int| xs[i] * ys[i];
    assert forall|i: int| 0 <= i < n implies magnitude(#[trigger] computed(i) - real_terms(i)) <= ((
    1real + u) - 1real) * magnitude(real_terms(i)) by {
        assert(call_ensures(R::times, (a[i], b[i]), terms@[i]));
    }
    lemma_inflation_at_least_one(u, n);
    lemma_inflation_at_least_one(u, n + 1);
    lemma_sum_equal(n, |i: int| magnitude(value(terms@[i])), |i: int| magnitude(computed(i)));
    lemma_total_near(n, computed, real_terms, inflation(u, n), 1real + u, value(dot));
    assert(inflation(u, n) * (1real + u) == inflation(u, n + 1));
    lemma_sum_equal(
        n,
        |i: int| magnitude(xs[i] * ys[i]),
        |i: int| magnitude(real_terms(i)),
    );
    norm_rounded(value, u, a, left);
    norm_rounded(value, u, b, right);
    lemma_near_cosine(
        value,
        u,
        inflation(u, n + 1),
        xs,
        ys,
        dot,
        value(left),
        value(right),
        both,
        result,
    );
    (value(left), value(right), value(both))
}

/// The product of two converted integers.
proof fn lemma_converted_product(u: real, a: real, b: real, x: real, y: real, t: real)
    requires
        0real <= u,
        magnitude(x - a) <= u * magnitude(a),
        magnitude(y - b) <= u * magnitude(b),
        magnitude(t - x * y) <= u * magnitude(x * y),
    ensures
        magnitude(t - a * b) <= (inflation(u, 3) - 1real) * magnitude(a * b),
{
    let (p, q, one) = (magnitude(a), magnitude(b), 1real + u);
    let s = magnitude(a * b);
    lemma_magnitude_of_product(a, b);
    lemma_distributes(p, 1real, u);
    lemma_units(p);
    lemma_commutes(p, u);
    lemma_product_bound(x, y - b, p * one, u * q);
    lemma_product_bound(x - a, b, u * p, q);
    lemma_distributes(x, y - b, b);
    lemma_distributes(b, x - a, a);
    assert(x * y - a * b == x * (y - b) + (x - a) * b);
    assert((p * one) * (u * q) + (u * p) * q == (one * one - 1real) * s) by {
        lemma_converted_terms(u, p, q);
    }
    let f = one * one;
    assert(f >= 1real) by {
        lemma_monotone(one, 1real, one);
        lemma_units(one);
    }
    lemma_one_more_rounding(a * b, x * y, t, f, u, s);
    reveal_with_fuel(inflation, 4);
    lemma_units(one);
    assert(inflation(u, 3) == f * one);
}

proof fn lemma_converted_terms(u: real, p: real, q: real)
    ensures
        (p * (1real + u)) * (u * q) + (u * p) * q == ((1real + u) * (1real + u) - 1real) * (p * q),
{
    let (one, s) = (1real + u, p * q);
    lemma_commutes(u, q);
    lemma_products_interchange(p, one, q, u);
    assert((p * one) * (u * q) == s * (one * u));
    lemma_associates(u, p, q);
    lemma_commutes(u, s);
    lemma_distributes(one, 1real, u);
    lemma_units(one);
    assert(one * one - 1real == one * u + u);
    lemma_distributes(s, one * u, u);
    lemma_commutes(s, one * u + u);
}

proof fn lemma_products_accumulated_near<RM: IntResolution, F: FloatResolution>(
    value: spec_fn(F) -> real,
    u: real,
    a: Seq<RM>,
    b: Seq<RM>,
    xs: Seq<F>,
    ys: Seq<F>,
    terms: Seq<F>,
    sum: F,
)
    requires
        rounded(value, u),
        converted(a, xs),
        converted(b, ys),
        products(xs, ys, terms),
        accumulated(terms, sum),
    ensures
        magnitude(value(sum) - scalar_product(reals(a), reals(b))) <= (inflation(u, a.len() + 3)
            - 1real) * product_magnitudes(reals(a), reals(b)),
{
    let n = a.len();
    let (ra, rb) = (reals(a), reals(b));
    let computed = |i: int| value(terms[i]);
    let real_terms = |i: int| ra[i] * rb[i];
    assert forall|i: int| 0 <= i < n implies magnitude(#[trigger] computed(i) - real_terms(i))
        <= (inflation(u, 3) - 1real) * magnitude(real_terms(i)) by {
        assert(call_ensures(F::times, (xs[i], ys[i]), terms[i]));
        assert(conversion(a[i], xs[i]));
        assert(conversion(b[i], ys[i]));
        lemma_converted_product(u, ra[i], rb[i], value(xs[i]), value(ys[i]), value(terms[i]));
    }
    lemma_accumulated_near(value, u, terms, sum);
    lemma_inflation_at_least_one(u, n);
    lemma_inflation_at_least_one(u, 3);
    lemma_inflation_of_sum(u, n, 3);
    lemma_sum_equal(n, |i: int| magnitude(value(terms[i])), |i: int| magnitude(computed(i)));
    lemma_total_near(n, computed, real_terms, inflation(u, n), inflation(u, 3), value(sum));
    lemma_sum_equal(
        n,
        |i: int| magnitude(ra[i] * rb[i]),
        |i: int| magnitude(real_terms(i)),
    );
}

proof fn lemma_root_near<F: FloatResolution>(
    value: spec_fn(F) -> real,
    u: real,
    growth: real,
    a: Seq<real>,
    sum: F,
    root: F,
)
    requires
        rounded(value, u),
        1real <= growth < 2real,
        magnitude(value(sum) - scalar_product(a, a)) <= (growth - 1real) * product_magnitudes(a, a),
        call_ensures(F::square_root, (sum,), root),
    ensures
        near_root(u, growth, scalar_product(a, a), value(root)),
        scalar_product(a, a) != 0real ==> value(root) > 0real,
{
    let squares = |i: int| a[i] * a[i];
    let sizes = |i: int| magnitude(a[i] * a[i]);
    assert forall|i: int| 0 <= i < a.len() implies #[trigger] sizes(i) == squares(i) by {
        lemma_square(a[i]);
    }
    lemma_sum_equal(a.len(), sizes, squares);
    lemma_scalar_square(a, -1);
    let aa = scalar_product(a, a);
    assert(value(sum) >= 0real) by {
        lemma_monotone(aa, growth - 1real, 1real);
        lemma_commutes(aa, growth - 1real);
        lemma_units(aa);
    }
    lemma_near_root(u, growth, aa, value(sum), value(root));
}

/// The similarity of accumulators is their cosine up to rounding, whatever their size.
pub proof fn unnormalized_similarity_rounded<RM: IntResolution, F: FloatResolution>(
    value: spec_fn(F) -> real,
    u: real,
    a: Seq<RM>,
    b: Seq<RM>,
    result: F,
) -> (lengths: (real, real, real))
    requires
        combinable(a.len(), b.len()),
        rounded(value, u),
        inflation(u, a.len() + 3) < 2real,
        integer_cosine(a, b, result),
    ensures
        near_cosine(
            u,
            inflation(u, a.len() + 3),
            reals(a),
            reals(b),
            lengths.0,
            lengths.1,
            lengths.2,
            value(result),
        ),
{
    let (xs, ys, mixed, left, right, dot, norm_a, norm_b, root_a, root_b, both) = choose|
        xs: Seq<F>,
        ys: Seq<F>,
        mixed: Seq<F>,
        left: Seq<F>,
        right: Seq<F>,
        dot: F,
        norm_a: F,
        norm_b: F,
        root_a: F,
        root_b: F,
        both: F,
    | #[trigger]
        integer_cosine_steps(
            a, b, xs, ys, mixed, left, right, dot, norm_a, norm_b, root_a, root_b, both, result,
        );
    let growth = inflation(u, a.len() + 3);
    lemma_inflation_at_least_one(u, a.len() + 3);
    lemma_products_accumulated_near(value, u, a, b, xs, ys, mixed, dot);
    lemma_products_accumulated_near(value, u, a, a, xs, xs, left, norm_a);
    lemma_products_accumulated_near(value, u, b, b, ys, ys, right, norm_b);
    lemma_root_near(value, u, growth, reals(a), norm_a, root_a);
    lemma_root_near(value, u, growth, reals(b), norm_b, root_b);
    lemma_near_cosine(
        value,
        u,
        growth,
        reals(a),
        reals(b),
        dot,
        value(root_a),
        value(root_b),
        both,
        result,
    );
    (value(root_a), value(root_b), value(both))
}

/// A serialised vector holds exactly one for +1 and exactly zero for -1.
pub proof fn serialize_rounded<F: FloatResolution>(
    value: spec_fn(F) -> real,
    u: real,
    bits: Seq<bool>,
    values: Seq<F>,
)
    requires
        rounded(value, u),
        serialized(bits, values),
    ensures
        values.len() == bits.len(),
        forall|i: int|
            0 <= i < bits.len() ==> value(#[trigger] values[i]) == if bits[i] {
                1real
            } else {
                0real
            },
{
}

/// A parsed vector holds +1 exactly where the number is no less than zero.
pub proof fn parse_rounded<F: FloatResolution>(
    value: spec_fn(F) -> real,
    u: real,
    values: Seq<F>,
    bits: Seq<bool>,
)
    requires
        rounded(value, u),
        parsed(values, bits),
    ensures
        bits.len() == values.len(),
        forall|i: int| 0 <= i < bits.len() ==> (#[trigger] bits[i] <==> value(values[i]) >= 0real),
{
    let zero = choose|zero: F| #[trigger] parsed_against(values, zero, bits);
    assert forall|i: int| 0 <= i < bits.len() implies (#[trigger] bits[i] <==> value(values[i])
        >= 0real) by {
        assert(call_ensures(F::at_least, (values[i], zero), bits[i]));
    }
}

} // verus!
