//! What the binding of holographic reduced representations computes where the arithmetic is
//! exact: the circular convolution.

use vstd::prelude::*;

use crate::holographic::{bind_steps, bound, complex_product, product_steps, rescale_steps};
use crate::holographic::{spectrum_of, spectrum_product, transformed};
use crate::laws::complex::{embed, lemma_embedded_product, lemma_scale_cancels};
use crate::laws::complex::{lemma_power_of_one, lemma_power_of_product, lemma_power_of_sum};
use crate::laws::complex::{lemma_power_of_times, lemma_powers_vanish};
use crate::laws::complex::{lemma_sum_equal, lemma_sum_of_embedded, lemma_sum_of_ones};
use crate::laws::complex::{lemma_sum_scaled, lemma_sum_scaled_left, lemma_sum_single};
use crate::laws::complex::{lemma_sums_interchange, lemma_times_associates};
use crate::laws::complex::{lemma_product_interchanges, lemma_times_units, sum, Number};
use crate::laws::exact::exact;
use crate::laws::real_sums::real_sum;
use crate::resolution::{Complex, FourierResolution};
use crate::storage::combinable;

verus! {

/// The discrete Fourier transform with the given root of unity: component `k` is the sum over
/// `j` of component `j` of `xs` times the power `j * k` of the root.
pub open spec fn discrete_transform(xs: Seq<Number>, root: Number) -> Seq<Number> {
    Seq::new(
        xs.len(),
        |k: int| sum(xs.len(), |j: int| xs[j].times(root.power((j * k) as nat))),
    )
}

/// `root` is a primitive `n`-th root of unity.
pub open spec fn primitive_root(root: Number, n: nat) -> bool {
    &&& root.power(n) == embed(1real)
    &&& forall|m: nat| 0 < m < n ==> #[trigger] root.power(m) != embed(1real)
}

/// The products of the components at the same position.
pub open spec fn pointwise(xs: Seq<Number>, ys: Seq<Number>) -> Seq<Number> {
    Seq::new(xs.len(), |k: int| xs[k].times(ys[k]))
}

/// The root powers that pair component `j` of the first vector and `l` of the second with
/// component `i` of the result.
spec fn kernel(root: Number, inverse: Number, i: int, j: int, l: int, k: int) -> Number {
    root.power((j * k) as nat).times(root.power((l * k) as nat)).times(
        inverse.power((k * i) as nat),
    )
}

proof fn lemma_inverse_cancels(root: Number, inverse: Number, n: nat)
    requires
        root.times(inverse) == embed(1real),
    ensures
        root.power(n).times(inverse.power(n)) == embed(1real),
{
    lemma_power_of_times(root, inverse, n);
    lemma_power_of_one(n);
}

/// The base whose powers the kernel is: the root to the remainder of `j + l - i`.
proof fn lemma_base(root: Number, inverse: Number, n: nat, i: int, j: int, l: int)
    requires
        root.power(n) == embed(1real),
        root.times(inverse) == embed(1real),
        0 <= i < n,
        0 <= j < n,
        0 <= l < n,
    ensures
        root.power(j as nat).times(root.power(l as nat)).times(inverse.power(i as nat))
            == root.power(((j + l - i) % (n as int)) as nat),
{
    let m = (j + l - i) % (n as int);
    let (jn, ln, i_n, mn) = (j as nat, l as nat, i as nat, m as nat);
    lemma_power_of_sum(root, jn, ln);
    lemma_power_of_sum(root, mn, i_n);
    if j + l - i < 0 {
        assert(m == j + l - i + n) by {
            vstd::arithmetic::div_mod::lemma_fundamental_div_mod_converse(
                j + l - i,
                n as int,
                -1,
                j + l - i + n,
            );
        }
        lemma_power_of_sum(root, jn + ln, n);
        lemma_times_units(root.power(jn + ln));
        assert(jn + ln + n == mn + i_n);
    } else if j + l - i < n {
        assert(m == j + l - i) by {
            vstd::arithmetic::div_mod::lemma_small_mod((j + l - i) as nat, n);
        }
        assert(jn + ln == mn + i_n);
    } else {
        assert(m == j + l - i - n) by {
            vstd::arithmetic::div_mod::lemma_fundamental_div_mod_converse(
                j + l - i,
                n as int,
                1,
                j + l - i - n,
            );
        }
        lemma_power_of_sum(root, mn + i_n, n);
        lemma_times_units(root.power(mn + i_n));
        assert(jn + ln == mn + i_n + n);
    }
    assert(root.power(jn).times(root.power(ln)) == root.power(mn).times(root.power(i_n)));
    lemma_times_associates(root.power(mn), root.power(i_n), inverse.power(i_n));
    lemma_inverse_cancels(root, inverse, i_n);
    lemma_times_units(root.power(mn));
}

proof fn lemma_kernel_is_power(
    root: Number,
    inverse: Number,
    n: nat,
    i: int,
    j: int,
    l: int,
    k: int,
)
    requires
        root.power(n) == embed(1real),
        root.times(inverse) == embed(1real),
        0 <= i < n,
        0 <= j < n,
        0 <= l < n,
        0 <= k,
    ensures
        kernel(root, inverse, i, j, l, k) == root.power(
            ((j + l - i) % (n as int)) as nat,
        ).power(k as nat),
{
    let (jn, ln, i_n, kn) = (j as nat, l as nat, i as nat, k as nat);
    lemma_power_of_product(root, jn, kn);
    lemma_power_of_product(root, ln, kn);
    assert(k * i == i * k) by (nonlinear_arith);
    lemma_power_of_product(inverse, i_n, kn);
    lemma_power_of_times(root.power(jn), root.power(ln), kn);
    lemma_power_of_times(root.power(jn).times(root.power(ln)), inverse.power(i_n), kn);
    lemma_base(root, inverse, n, i, j, l);
    assert((j * k) as nat == jn * kn);
    assert((l * k) as nat == ln * kn);
    assert((k * i) as nat == i_n * kn);
}

/// The kernel adds up to `n` where `j + l` and `i` leave the same remainder, and to zero
/// elsewhere.
proof fn lemma_kernel_sum(root: Number, inverse: Number, n: nat, i: int, j: int, l: int)
    requires
        primitive_root(root, n),
        root.times(inverse) == embed(1real),
        0 <= i < n,
        0 <= j < n,
        0 <= l < n,
    ensures
        sum(n, |k: int| kernel(root, inverse, i, j, l, k)) == if l == (i - j) % (n as int) {
            embed(n as real)
        } else {
            embed(0real)
        },
{
    let m = ((j + l - i) % (n as int)) as nat;
    let f = |k: int| kernel(root, inverse, i, j, l, k);
    assert forall|k: int| 0 <= k < n implies #[trigger] f(k) == root.power(m).power(k as nat) by {
        lemma_kernel_is_power(root, inverse, n, i, j, l, k);
    }
    assert((m == 0) == (l == (i - j) % (n as int))) by {
        lemma_remainders(n as int, i, j, l);
    }
    if m == 0 {
        assert forall|k: int| 0 <= k < n implies #[trigger] f(k) == embed(1real) by {
            lemma_power_of_one(k as nat);
        }
        lemma_sum_of_ones(n, f);
    } else {
        lemma_power_of_product(root, m, n);
        lemma_power_of_product(root, n, m);
        assert(m * n == n * m) by (nonlinear_arith);
        lemma_power_of_one(m);
        lemma_powers_vanish(n, root.power(m), f);
    }
}

pub(crate) proof fn lemma_remainders(n: int, i: int, j: int, l: int)
    requires
        0 <= i < n,
        0 <= j < n,
        0 <= l < n,
    ensures
        0 <= (j + l - i) % n < n,
        ((j + l - i) % n == 0) == (l == (i - j) % n),
{
    if i - j >= 0 {
        vstd::arithmetic::div_mod::lemma_small_mod((i - j) as nat, n as nat);
    } else {
        vstd::arithmetic::div_mod::lemma_fundamental_div_mod_converse(i - j, n, -1, i - j + n);
    }
    let d = j + l - i;
    if d < 0 {
        vstd::arithmetic::div_mod::lemma_fundamental_div_mod_converse(d, n, -1, d + n);
    } else if d < n {
        vstd::arithmetic::div_mod::lemma_small_mod(d as nat, n as nat);
    } else {
        vstd::arithmetic::div_mod::lemma_fundamental_div_mod_converse(d, n, 1, d - n);
    }
}

/// What component `j` of the first vector and `l` of the second contribute, through component `k`
/// of the spectrum, to component `i` of the result.
spec fn contribution(
    xs: Seq<Number>,
    ys: Seq<Number>,
    root: Number,
    inverse: Number,
    i: int,
    j: int,
    l: int,
    k: int,
) -> Number {
    xs[j].times(ys[l]).times(kernel(root, inverse, i, j, l, k))
}

proof fn lemma_spectrum_component(
    xs: Seq<Number>,
    ys: Seq<Number>,
    root: Number,
    inverse: Number,
    n: nat,
    i: int,
    k: int,
)
    ensures
        sum(n, |j: int| xs[j].times(root.power((j * k) as nat))).times(
            sum(n, |l: int| ys[l].times(root.power((l * k) as nat))),
        ).times(inverse.power((k * i) as nat)) == sum(
            n,
            |j: int| sum(n, |l: int| contribution(xs, ys, root, inverse, i, j, l, k)),
        ),
{
    let x = |j: int| xs[j].times(root.power((j * k) as nat));
    let y = |l: int| ys[l].times(root.power((l * k) as nat));
    let z = inverse.power((k * i) as nat);
    let products = |j: int| x(j).times(sum(n, y));
    let scaled = |j: int| products(j).times(z);
    let rows = |j: int| sum(n, |l: int| contribution(xs, ys, root, inverse, i, j, l, k));
    lemma_sum_scaled(n, x, sum(n, y));
    lemma_sum_scaled(n, products, z);
    assert forall|j: int| 0 <= j < n implies #[trigger] scaled(j) == rows(j) by {
        let pairs = |l: int| x(j).times(y(l));
        let terms = |l: int| pairs(l).times(z);
        let row = |l: int| contribution(xs, ys, root, inverse, i, j, l, k);
        lemma_sum_scaled_left(n, y, x(j));
        lemma_sum_scaled(n, pairs, z);
        assert forall|l: int| 0 <= l < n implies #[trigger] terms(l) == row(l) by {
            let (r, t) = (root.power((j * k) as nat), root.power((l * k) as nat));
            lemma_product_interchanges(xs[j], r, ys[l], t);
            lemma_times_associates(xs[j].times(ys[l]), r.times(t), z);
        }
        lemma_sum_equal(n, terms, row);
    }
    lemma_sum_equal(n, scaled, rows);
}

/// The convolution theorem, for one component: transforming the product of two transforms back
/// gives the circular convolution, times the number of components.
pub(crate) proof fn lemma_convolution_component(
    xs: Seq<Number>,
    ys: Seq<Number>,
    root: Number,
    inverse: Number,
    i: int,
)
    requires
        xs.len() == ys.len(),
        primitive_root(root, xs.len()),
        root.times(inverse) == embed(1real),
        0 <= i < xs.len(),
    ensures
        discrete_transform(
            pointwise(discrete_transform(xs, root), discrete_transform(ys, root)),
            inverse,
        )[i] == sum(xs.len(), |j: int| xs[j].times(ys[(i - j) % (xs.len() as int)])).times(
            embed(xs.len() as real),
        ),
{
    let n = xs.len();
    let spectrum = pointwise(discrete_transform(xs, root), discrete_transform(ys, root));
    let back = |k: int| spectrum[k].times(inverse.power((k * i) as nat));
    let all = |k: int, j: int| sum(n, |l: int| contribution(xs, ys, root, inverse, i, j, l, k));
    let by_spectrum = |k: int| sum(n, |j: int| all(k, j));
    assert forall|k: int| 0 <= k < n implies #[trigger] back(k) == by_spectrum(k) by {
        lemma_spectrum_component(xs, ys, root, inverse, n, i, k);
        lemma_sum_equal(
            n,
            |j: int| sum(n, |l: int| contribution(xs, ys, root, inverse, i, j, l, k)),
            |j: int| all(k, j),
        );
    }
    lemma_sum_equal(n, back, by_spectrum);
    lemma_sums_interchange(n, n, all);

    let by_first = |j: int| sum(n, |k: int| all(k, j));
    let convolved = |j: int| xs[j].times(ys[(i - j) % (n as int)]);
    let scaled = |j: int| convolved(j).times(embed(n as real));
    assert forall|j: int| 0 <= j < n implies #[trigger] by_first(j) == scaled(j) by {
        let term = |k: int, l: int| contribution(xs, ys, root, inverse, i, j, l, k);
        let by_second = |l: int| sum(n, |k: int| term(k, l));
        let column = |k: int| all(k, j);
        let terms = |k: int| sum(n, |l: int| term(k, l));
        assert forall|k: int| 0 <= k < n implies #[trigger] column(k) == terms(k) by {
            lemma_sum_equal(
                n,
                |l: int| contribution(xs, ys, root, inverse, i, j, l, k),
                |l: int| term(k, l),
            );
        }
        lemma_sum_equal(n, column, terms);
        lemma_sums_interchange(n, n, term);
        assert forall|l: int| 0 <= l < n implies #[trigger] by_second(l)
            == if l == (i - j) % (n as int) {
            scaled(j)
        } else {
            embed(0real)
        } by {
            let f = |k: int| kernel(root, inverse, i, j, l, k);
            let g = |k: int| xs[j].times(ys[l]).times(f(k));
            lemma_sum_equal(n, |k: int| term(k, l), g);
            lemma_sum_scaled_left(n, f, xs[j].times(ys[l]));
            lemma_kernel_sum(root, inverse, n, i, j, l);
            lemma_times_units(xs[j].times(ys[l]));
        }
        let at = (i - j) % (n as int);
        lemma_remainders(n as int, i, j, 0);
        assert(0 <= at < n);
        lemma_sum_single(n, by_second, at);
    }
    lemma_sum_equal(n, by_first, scaled);
    lemma_sum_scaled(n, convolved, embed(n as real));
}

/// The circular convolution of two vectors of the same size: component `i` is the sum over `j` of
/// component `j` of the first times component `i - j`, modulo the size, of the second.
pub open spec fn circular_convolution(a: Seq<real>, b: Seq<real>) -> Seq<real> {
    Seq::new(
        a.len(),
        |i: int| real_sum(a.len(), |j: int| a[j] * b[(i - j) % (a.len() as int)]),
    )
}

/// The exact numbers that complex values stand for.
pub open spec fn numbers<R>(value: spec_fn(R) -> real, values: Seq<Complex<R>>) -> Seq<Number> {
    Seq::new(
        values.len(),
        |i: int| Number { re: value(values[i].re), im: value(values[i].im) },
    )
}

/// The transforms of `n` values are exact: the forward one is the discrete Fourier transform with
/// `root`, the inverse one that with `inverse`.
pub open spec fn exact_transforms<R: FourierResolution>(
    value: spec_fn(R) -> real,
    root: Number,
    inverse: Number,
    n: nat,
) -> bool {
    &&& forall|values: Vec<Complex<R>>, out: Vec<Complex<R>>|
        values@.len() == n && #[trigger] call_ensures(R::forward_transform, (values,), out)
            ==> numbers(value, out@) == discrete_transform(numbers(value, values@), root)
    &&& forall|values: Vec<Complex<R>>, out: Vec<Complex<R>>|
        values@.len() == n && #[trigger] call_ensures(R::inverse_transform, (values,), out)
            ==> numbers(value, out@) == discrete_transform(numbers(value, values@), inverse)
}

/// The arithmetic is exact, and so are the transforms of `n` values, with a primitive root of
/// unity and its inverse.
pub open spec fn exact_fourier<R: FourierResolution>(
    value: spec_fn(R) -> real,
    root: Number,
    inverse: Number,
    n: nat,
) -> bool {
    &&& exact(value)
    &&& primitive_root(root, n)
    &&& root.times(inverse) == embed(1real)
    &&& exact_transforms(value, root, inverse, n)
}

/// Real numbers as complex ones.
spec fn embeddings<R>(value: spec_fn(R) -> real, values: Seq<R>) -> Seq<Number> {
    Seq::new(values.len(), |i: int| embed(value(values[i])))
}

proof fn lemma_exact_spectrum<R: FourierResolution>(
    value: spec_fn(R) -> real,
    root: Number,
    inverse: Number,
    values: Seq<R>,
    spectrum: Vec<Complex<R>>,
)
    requires
        exact(value),
        exact_transforms(value, root, inverse, values.len()),
        spectrum_of(values, spectrum),
    ensures
        numbers(value, spectrum@) == discrete_transform(embeddings(value, values), root),
{
    let (zero, embedding) = choose|zero: R, embedding: Vec<Complex<R>>| #[trigger]
        transformed(values, zero, embedding, spectrum);
    assert(numbers(value, embedding@) =~= embeddings(value, values));
}

proof fn lemma_exact_product<R: FourierResolution>(
    value: spec_fn(R) -> real,
    xs: Seq<Complex<R>>,
    ys: Seq<Complex<R>>,
    out: Seq<Complex<R>>,
)
    requires
        exact(value),
        spectrum_product(xs, ys, out),
    ensures
        numbers(value, out) == pointwise(numbers(value, xs), numbers(value, ys)),
{
    assert forall|i: int| 0 <= i < out.len() implies #[trigger] numbers(value, out)[i] == pointwise(
        numbers(value, xs),
        numbers(value, ys),
    )[i] by {
        let (first, second, left, right) = choose|first: R, second: R, left: R, right: R| #[trigger]
            product_steps(xs[i], ys[i], first, second, left, right, out[i]);
        assert(complex_product(xs[i], ys[i], out[i]));
    }
    assert(numbers(value, out) =~= pointwise(numbers(value, xs), numbers(value, ys)));
}

/// Where the arithmetic and the transforms are exact, binding is the circular convolution.
pub proof fn bind_is_circular_convolution<R: FourierResolution>(
    value: spec_fn(R) -> real,
    root: Number,
    inverse: Number,
    a: Seq<R>,
    b: Seq<R>,
    out: Seq<R>,
)
    requires
        combinable(a.len(), b.len()),
        exact_fourier(value, root, inverse, a.len()),
        bound(a, b, out),
    ensures
        out.map_values(value) == circular_convolution(a.map_values(value), b.map_values(value)),
{
    let n = a.len();
    let (left, right, spectrum, values) = choose|
        left: Vec<Complex<R>>,
        right: Vec<Complex<R>>,
        spectrum: Vec<Complex<R>>,
        values: Vec<Complex<R>>,
    | #[trigger]
        bind_steps(a, b, left, right, spectrum, values, out);
    let (one, count, scale) = choose|one: R, count: R, scale: R| #[trigger]
        rescale_steps(values@, n, one, count, scale, out);
    let (xs, ys) = (embeddings(value, a), embeddings(value, b));
    lemma_exact_spectrum(value, root, inverse, a, left);
    lemma_exact_spectrum(value, root, inverse, b, right);
    assert(left@.len() == numbers(value, left@).len());
    assert(right@.len() == numbers(value, right@).len());
    lemma_exact_product(value, left@, right@, spectrum@);
    assert(spectrum@.len() == numbers(value, spectrum@).len());
    assert(values@.len() == numbers(value, values@).len());
    let (ra, rb) = (a.map_values(value), b.map_values(value));
    assert forall|i: int| 0 <= i < n implies #[trigger] out.map_values(value)[i]
        == circular_convolution(ra, rb)[i] by {
        let products = |j: int| ra[j] * rb[(i - j) % (n as int)];
        let convolved = |j: int| xs[j].times(ys[(i - j) % (n as int)]);
        lemma_convolution_component(xs, ys, root, inverse, i);
        assert forall|j: int| 0 <= j < n implies #[trigger] convolved(j) == embed(products(j)) by {
            lemma_remainders(n as int, i, j, 0);
            lemma_embedded_product(ra[j], rb[(i - j) % (n as int)]);
        }
        lemma_sum_of_embedded(n, convolved, products);
        let total = real_sum(n, products);
        lemma_embedded_product(total, n as real);
        assert(numbers(value, values@)[i] == embed(total * (n as real)));
        assert(value(out[i]) == value(values@[i].re) * value(scale));
        lemma_scale_cancels(total, n as real, value(scale));
    }
    assert(out.map_values(value) =~= circular_convolution(ra, rb));
}

} // verus!
