//! What the binding of holographic vectors comes to where the arithmetic is rounded: it stays
//! within a bound of the circular convolution, whatever the size.

use vstd::prelude::*;

use crate::holographic::{bind_steps, bound, complex_product, product_steps, rescale_steps};
use crate::holographic::{spectrum_of, spectrum_product, transformed};
use crate::laws::complex::{embed, lemma_embedded_product, lemma_modulus_of_product};
use crate::laws::complex::{lemma_power_on_circle, lemma_root_on_circle, lemma_sum_of_embedded};
use crate::laws::complex::{lemma_times_commutes, lemma_times_distributes, modulus, sum, Number};
use crate::laws::convolution::{circular_convolution, discrete_transform, lemma_remainders};
use crate::laws::convolution::{lemma_convolution_component, numbers, pointwise, primitive_root};
use crate::laws::real_sums::{lemma_associates, lemma_commutes, lemma_distributes};
use crate::laws::real_sums::{lemma_products_interchange, lemma_square, lemma_sum_bounds};
use crate::laws::real_sums::{lemma_sum_equal, lemma_units, real_sum};
use crate::laws::rounding::{lemma_magnitude_of_product, lemma_monotone, lemma_nonnegative};
use crate::laws::rounding::{lemma_part, lemma_product_bound, lemma_sum_bounded};
use crate::laws::rounding::{lemma_sum_magnitude, magnitude, rounded};
use crate::resolution::{Complex, FloatResolution, FourierResolution};
use crate::storage::combinable;

verus! {

/// The magnitudes of the two parts of a complex number, added up.
pub open spec fn extent(z: Number) -> real {
    magnitude(z.re) + magnitude(z.im)
}

/// The difference of two complex numbers.
pub open spec fn difference(z: Number, w: Number) -> Number {
    Number { re: z.re - w.re, im: z.im - w.im }
}

/// The extents of complex numbers, added up.
pub open spec fn total_extent(zs: Seq<Number>) -> real {
    real_sum(zs.len(), |j: int| extent(zs[j]))
}

/// The magnitudes of real numbers, added up.
pub open spec fn total_magnitude(xs: Seq<real>) -> real {
    real_sum(xs.len(), |j: int| magnitude(xs[j]))
}

/// The transforms of `n` values are near the discrete Fourier transforms with `root` and with
/// `inverse`: each component differs by no more than the part `e` of what the values add up to.
pub open spec fn near_transforms<R: FourierResolution>(
    value: spec_fn(R) -> real,
    e: real,
    root: Number,
    inverse: Number,
    n: nat,
) -> bool {
    &&& forall|values: Vec<Complex<R>>, out: Vec<Complex<R>>, k: int|
        #![trigger call_ensures(R::forward_transform, (values,), out), out@[k]]
        values@.len() == n && call_ensures(R::forward_transform, (values,), out) && 0 <= k < n
            ==> extent(
            difference(
                numbers(value, out@)[k],
                discrete_transform(numbers(value, values@), root)[k],
            ),
        ) <= e * total_extent(numbers(value, values@))
    &&& forall|values: Vec<Complex<R>>, out: Vec<Complex<R>>, k: int|
        #![trigger call_ensures(R::inverse_transform, (values,), out), out@[k]]
        values@.len() == n && call_ensures(R::inverse_transform, (values,), out) && 0 <= k < n
            ==> extent(
            difference(
                numbers(value, out@)[k],
                discrete_transform(numbers(value, values@), inverse)[k],
            ),
        ) <= e * total_extent(numbers(value, values@))
}

proof fn lemma_extent_of_product(z: Number, w: Number)
    ensures
        extent(z.times(w)) <= extent(z) * extent(w),
{
    let (zr, zi, wr, wi) = (magnitude(z.re), magnitude(z.im), magnitude(w.re), magnitude(w.im));
    lemma_magnitude_of_product(z.re, w.re);
    lemma_magnitude_of_product(z.im, w.im);
    lemma_magnitude_of_product(z.im, w.re);
    lemma_magnitude_of_product(z.re, w.im);
    lemma_distributes(zr + zi, wr, wi);
    lemma_distributes(wr, zr, zi);
    lemma_distributes(wi, zr, zi);
}

proof fn lemma_extent_product_bound(z: Number, w: Number, p: real, q: real)
    requires
        extent(z) <= p,
        extent(w) <= q,
    ensures
        extent(z.times(w)) <= p * q,
{
    lemma_extent_of_product(z, w);
    lemma_monotone(extent(z), extent(w), q);
    lemma_monotone(q, extent(z), p);
}

proof fn lemma_extent_on_circle(z: Number)
    requires
        modulus(z) == 1real,
    ensures
        extent(z) <= 2real,
{
    lemma_square(z.re);
    lemma_square(z.im);
    lemma_square_below_one(z.re);
    lemma_square_below_one(z.im);
}

proof fn lemma_square_below_one(x: real)
    by (nonlinear_arith)
    requires
        x * x <= 1real,
    ensures
        -1real <= x <= 1real,
{
}

/// Sums of complex numbers that are near each other, place by place.
proof fn lemma_sums_close(
    n: nat,
    f: spec_fn(int) -> Number,
    g: spec_fn(int) -> Number,
    h: real,
    s: spec_fn(int) -> real,
)
    requires
        forall|i: int| 0 <= i < n ==> extent(difference(#[trigger] f(i), g(i))) <= h * s(i),
    ensures
        extent(difference(sum(n, f), sum(n, g))) <= h * real_sum(n, s),
    decreases n,
{
    if n == 0 {
        lemma_units(h);
    } else {
        let k = (n - 1) as nat;
        lemma_sums_close(k, f, g, h, s);
        assert(extent(difference(f(n - 1), g(n - 1))) <= h * s(n - 1));
        lemma_distributes(h, real_sum(k, s), s(n - 1));
    }
}

proof fn lemma_sum_of_nothing(n: nat, f: spec_fn(int) -> Number)
    requires
        forall|i: int| 0 <= i < n ==> #[trigger] f(i) == embed(0real),
    ensures
        sum(n, f) == embed(0real),
    decreases n,
{
    if n > 0 {
        lemma_sum_of_nothing((n - 1) as nat, f);
        assert(f(n - 1) == embed(0real));
    }
}

/// The components of a transform are no larger than twice what the values add up to.
proof fn lemma_transform_bounded(xs: Seq<Number>, root: Number, k: int)
    requires
        forall|m: nat| extent(#[trigger] root.power(m)) <= 2real,
        0 <= k < xs.len(),
    ensures
        extent(discrete_transform(xs, root)[k]) <= 2real * total_extent(xs),
{
    let n = xs.len();
    let f = |j: int| xs[j].times(root.power((j * k) as nat));
    let nothing = |j: int| embed(0real);
    let s = |j: int| extent(xs[j]);
    assert forall|j: int| 0 <= j < n implies extent(difference(#[trigger] f(j), nothing(j)))
        <= 2real * s(j) by {
        lemma_extent_product_bound(
            xs[j],
            root.power((j * k) as nat),
            extent(xs[j]),
            2real,
        );
        lemma_commutes(s(j), 2real);
        assert(difference(f(j), embed(0real)) == f(j));
    }
    lemma_sums_close(n, f, nothing, 2real, s);
    lemma_sum_of_nothing(n, nothing);
    assert(difference(sum(n, f), embed(0real)) == sum(n, f));
}

/// Transforms of values that are near each other, place by place.
proof fn lemma_transforms_close(
    xs: Seq<Number>,
    ys: Seq<Number>,
    root: Number,
    d: real,
    k: int,
)
    requires
        xs.len() == ys.len(),
        forall|m: nat| extent(#[trigger] root.power(m)) <= 2real,
        forall|j: int|
            0 <= j < xs.len() ==> extent(difference(#[trigger] xs[j], ys[j])) <= d,
        0 <= k < xs.len(),
    ensures
        extent(difference(discrete_transform(xs, root)[k], discrete_transform(ys, root)[k])) <= (
        2real * d) * ((xs.len() as int) as real),
{
    let n = xs.len();
    let f = |j: int| xs[j].times(root.power((j * k) as nat));
    let g = |j: int| ys[j].times(root.power((j * k) as nat));
    let s = |j: int| 1real;
    assert forall|j: int| 0 <= j < n implies extent(difference(#[trigger] f(j), g(j))) <= (2real
        * d) * s(j) by {
        let (z, gap) = (root.power((j * k) as nat), difference(xs[j], ys[j]));
        assert(extent(gap) <= d);
        lemma_extent_product_bound(gap, z, d, 2real);
        lemma_commutes(d, 2real);
        lemma_units(2real * d);
        lemma_difference_of_products(xs[j], ys[j], z);
    }
    lemma_sums_close(n, f, g, 2real * d, s);
    lemma_sum_of_ones(n, s);
}

proof fn lemma_sum_of_ones(n: nat, s: spec_fn(int) -> real)
    requires
        forall|j: int| 0 <= j < n ==> #[trigger] s(j) == 1real,
    ensures
        real_sum(n, s) == (n as int) as real,
    decreases n,
{
    if n > 0 {
        lemma_sum_of_ones((n - 1) as nat, s);
        assert(s(n - 1) == 1real);
    }
}

proof fn lemma_difference_of_products(x: Number, y: Number, z: Number)
    ensures
        difference(x.times(z), y.times(z)) == difference(x, y).times(z),
        difference(z.times(x), z.times(y)) == z.times(difference(x, y)),
{
    let gap = difference(x, y);
    assert(y.plus(gap) == x);
    lemma_times_distributes(z, y, gap);
    lemma_times_commutes(z, x);
    lemma_times_commutes(z, y);
    lemma_times_commutes(z, gap);
}

/// A sum or difference of two rounded products.
proof fn lemma_rounded_pair(u: real, p: real, q: real, first: real, second: real, out: real)
    requires
        0real <= u,
        8real * u <= 1real,
        magnitude(first - p) <= u * magnitude(p),
        magnitude(second - q) <= u * magnitude(q),
        magnitude(out - (first + second)) <= u * magnitude(first + second),
    ensures
        magnitude(out - (p + q)) <= 3real * (u * (magnitude(p) + magnitude(q))),
{
    let s = magnitude(p) + magnitude(q);
    lemma_distributes(u, magnitude(p), magnitude(q));
    lemma_monotone(s, 8real * u, 1real);
    lemma_units(s);
    lemma_associates(8real, u, s);
    lemma_commutes(s, 8real * u);
    assert(8real * (u * s) <= s);
    assert(magnitude(first + second) <= 2real * s);
    lemma_part(u, magnitude(first + second), 2real, s);
}

/// The complex product, computed with rounding.
proof fn lemma_rounded_product<R: FloatResolution>(
    value: spec_fn(R) -> real,
    u: real,
    x: Complex<R>,
    y: Complex<R>,
    out: Complex<R>,
    z: Number,
    w: Number,
    p: Number,
)
    requires
        rounded(value, u),
        complex_product(x, y, out),
        z == (Number { re: value(x.re), im: value(x.im) }),
        w == (Number { re: value(y.re), im: value(y.im) }),
        p == (Number { re: value(out.re), im: value(out.im) }),
    ensures
        extent(difference(p, z.times(w))) <= 3real * (u * (extent(z) * extent(w))),
{
    let (first, second, left, right) = choose|first: R, second: R, left: R, right: R| #[trigger]
        product_steps(x, y, first, second, left, right, out);
    let (rr, ii) = (z.re * w.re, z.im * w.im);
    let (ir, ri) = (z.im * w.re, z.re * w.im);
    lemma_rounded_pair(u, rr, -ii, value(first), -value(second), value(out.re));
    lemma_rounded_pair(u, ir, ri, value(left), value(right), value(out.im));
    let (zr, zi, wr, wi) = (magnitude(z.re), magnitude(z.im), magnitude(w.re), magnitude(w.im));
    lemma_magnitude_of_product(z.re, w.re);
    lemma_magnitude_of_product(z.im, w.im);
    lemma_magnitude_of_product(z.im, w.re);
    lemma_magnitude_of_product(z.re, w.im);
    lemma_distributes(zr + zi, wr, wi);
    lemma_distributes(wr, zr, zi);
    lemma_distributes(wi, zr, zi);
    let (s, t) = (magnitude(rr) + magnitude(ii), magnitude(ir) + magnitude(ri));
    assert(extent(z) * extent(w) == s + t);
    lemma_distributes(u, s, t);
}

/// The product of two numbers that are near `a` and `b`, in terms of bounds on these.
proof fn lemma_product_near(
    u: real,
    e: real,
    p: real,
    q: real,
    a: Number,
    b: Number,
    l: Number,
    r: Number,
    out: Number,
)
    requires
        0real <= u,
        0real <= e <= 1real,
        p >= 0real,
        q >= 0real,
        extent(a) <= 2real * p,
        extent(b) <= 2real * q,
        extent(difference(l, a)) <= e * p,
        extent(difference(r, b)) <= e * q,
        extent(difference(out, l.times(r))) <= 3real * (u * (extent(l) * extent(r))),
    ensures
        extent(difference(out, a.times(b))) <= 27real * (u * (p * q)) + 5real * (e * (p * q)),
        extent(a.times(b)) <= 4real * (p * q),
{
    let k = p * q;
    lemma_monotone(p, e, 1real);
    lemma_monotone(q, e, 1real);
    lemma_units(p);
    lemma_units(q);
    lemma_commutes(p, e);
    lemma_commutes(q, e);
    assert(extent(l) <= 3real * p);
    assert(extent(r) <= 3real * q);

    // The rounding.
    lemma_monotone(extent(l), extent(r), 3real * q);
    lemma_monotone(3real * q, extent(l), 3real * p);
    lemma_products_interchange(3real, p, 3real, q);
    assert(extent(l) * extent(r) <= 9real * k);
    lemma_part(u, extent(l) * extent(r), 9real, k);

    // The two factors.
    let (left, right) = (difference(l, a), difference(r, b));
    lemma_extent_product_bound(left, r, e * p, 3real * q);
    lemma_products_interchange(e, p, 3real, q);
    lemma_commutes(e, 3real);
    lemma_associates(3real, e, k);
    lemma_extent_product_bound(a, right, 2real * p, e * q);
    lemma_products_interchange(2real, p, e, q);
    lemma_associates(2real, e, k);
    lemma_difference_of_products(l, a, r);
    lemma_difference_of_products(r, b, a);
    assert(extent(difference(l.times(r), a.times(r))) <= 3real * (e * k));
    assert(extent(difference(a.times(r), a.times(b))) <= 2real * (e * k));

    lemma_extent_product_bound(a, b, 2real * p, 2real * q);
    lemma_products_interchange(2real, p, 2real, q);
}

/// The scaling by one over the count.
proof fn lemma_rescaled(
    u: real,
    k: real,
    x: real,
    n: real,
    count: real,
    scale: real,
    v: real,
    c: real,
    out: real,
)
    requires
        0real <= u,
        8real * u <= 1real,
        n > 0real,
        k >= 0real,
        x >= 0real,
        magnitude(count - n) <= u * n,
        magnitude(scale * count - 1real) <= u,
        magnitude(v - n * c) <= n * x,
        magnitude(c) <= k,
        magnitude(out - v * scale) <= u * magnitude(v * scale),
    ensures
        magnitude(out - c) <= 2real * x + 4real * (u * k) + u * (2real * x + u * (3real * k)),
{
    let ns = n * scale;
    lemma_monotone(n, 8real * u, 1real);
    lemma_units(n);
    lemma_associates(8real, u, n);
    lemma_commutes(n, 8real * u);
    assert(8real * count >= 7real * n);
    lemma_scale_bounds(n, count, scale);
    assert(magnitude(scale * (n - count)) <= 2real * u) by {
        lemma_product_bound(scale, n - count, scale, u * n);
        lemma_commutes(u, n);
        lemma_associates(scale, n, u);
        lemma_commutes(scale, n);
        lemma_monotone(u, ns, 2real);
        lemma_commutes(ns, u);
        lemma_commutes(u, 2real);
    }
    lemma_distributes(scale, count, n - count);
    lemma_commutes(scale, n);
    assert(magnitude(ns - 1real) <= 3real * u);
    let gap = v - n * c;
    assert(magnitude(gap * scale) <= 2real * x) by {
        lemma_product_bound(gap, scale, n * x, scale);
        lemma_commutes(n, x);
        lemma_associates(x, n, scale);
        lemma_monotone(x, ns, 2real);
        lemma_commutes(x, 2real);
    }
    assert(magnitude(c * (ns - 1real)) <= 3real * (u * k)) by {
        lemma_product_bound(c, ns - 1real, k, 3real * u);
        lemma_commutes(k, 3real * u);
        lemma_associates(3real, u, k);
    }
    assert(v * scale == gap * scale + c * ns) by {
        lemma_distributes(scale, gap, n * c);
        lemma_commutes(n, c);
        lemma_associates(c, n, scale);
    }
    assert(c * ns == c * (ns - 1real) + c) by {
        lemma_distributes(c, ns - 1real, 1real);
        lemma_units(c);
    }
    assert(magnitude(v * scale - c) <= 2real * x + 3real * (u * k));
    let s = 2real * x + u * (3real * k);
    assert(u * (3real * k) == 3real * (u * k)) by {
        lemma_associates(u, 3real, k);
        lemma_commutes(u, 3real);
        lemma_associates(3real, u, k);
    }
    lemma_monotone(u, magnitude(v * scale), s + k);
    lemma_distributes(u, s, k);
}

proof fn lemma_scale_bounds(n: real, count: real, scale: real)
    requires
        n > 0real,
        8real * count >= 7real * n,
        8real * magnitude(scale * count - 1real) <= 1real,
    ensures
        scale > 0real,
        0real < n * scale <= 2real,
{
    lemma_positive_factor(scale, count);
    lemma_positive_product(n, scale);
    lemma_monotone(scale, 7real * n, 8real * count);
    assert(scale * (7real * n) == 7real * (n * scale)) by {
        lemma_commutes(scale, 7real * n);
        lemma_associates(7real, n, scale);
    }
    assert(scale * (8real * count) == 8real * (scale * count)) by {
        lemma_commutes(scale, 8real * count);
        lemma_associates(8real, count, scale);
        lemma_commutes(count, scale);
    }
}

proof fn lemma_positive_factor(x: real, y: real)
    by (nonlinear_arith)
    requires
        y > 0real,
        x * y > 0real,
    ensures
        x > 0real,
{
}

proof fn lemma_positive_product(x: real, y: real)
    by (nonlinear_arith)
    requires
        x > 0real,
        y > 0real,
    ensures
        x * y > 0real,
{
}

proof fn lemma_parts(u: real, e: real, k: real)
    requires
        0real <= u,
        8real * u <= 1real,
        0real <= e <= 1real,
        k >= 0real,
    ensures
        0real <= 8real * (u * k) <= k,
        0real <= e * k <= k,
{
    lemma_nonnegative(u, k);
    lemma_nonnegative(e, k);
    lemma_monotone(k, 8real * u, 1real);
    lemma_monotone(k, e, 1real);
    lemma_units(k);
    lemma_associates(8real, u, k);
    lemma_commutes(k, 8real * u);
    lemma_commutes(k, e);
}

/// All the bounds together.
proof fn lemma_final_bound(u: real, e: real, k: real, gap: real)
    requires
        0real <= u,
        8real * u <= 1real,
        0real <= e <= 1real,
        k >= 0real,
        gap <= 2real * (54real * (u * k) + 23real * (e * k)) + 4real * (u * k) + u * (2real * (
        54real * (u * k) + 23real * (e * k)) + u * (3real * k)),
    ensures
        gap <= 200real * ((u + e) * k),
{
    lemma_parts(u, e, k);
    lemma_part(u, 3real * k, 3real, k);
    let s = 2real * (54real * (u * k) + 23real * (e * k)) + u * (3real * k);
    assert(s <= 60real * k);
    lemma_part(u, s, 60real, k);
    lemma_distributes(k, u, e);
}

/// The components of a convolution are no larger than the product of what the two vectors add up
/// to.
proof fn lemma_convolution_bounded(a: Seq<real>, b: Seq<real>, i: int)
    requires
        a.len() == b.len(),
        0 <= i < a.len(),
    ensures
        magnitude(circular_convolution(a, b)[i]) <= total_magnitude(a) * total_magnitude(b),
        total_magnitude(a) >= 0real,
        total_magnitude(b) >= 0real,
{
    let n = a.len();
    let all = total_magnitude(b);
    let terms = |j: int| a[j] * b[(i - j) % (n as int)];
    let sizes = |j: int| magnitude(terms(j));
    let left = |j: int| magnitude(a[j]);
    let right = |j: int| magnitude(b[j]);
    assert forall|j: int| 0 <= j < n implies #[trigger] sizes(j) <= all * left(j) by {
        let at = (i - j) % (n as int);
        lemma_remainders(n as int, i, j, 0);
        lemma_sum_bounds(n, right, at);
        assert(right(at) <= all);
        lemma_product_bound(a[j], b[at], left(j), all);
        lemma_commutes(left(j), all);
    }
    lemma_sum_magnitude(n, terms);
    lemma_sum_bounded(n, sizes, left, all);
    lemma_sum_bounds(n, left, 0);
    lemma_sum_bounds(n, right, 0);
    lemma_commutes(total_magnitude(a), all);
}

/// Real values as complex numbers.
spec fn embeddings<R>(value: spec_fn(R) -> real, values: Seq<R>) -> Seq<Number> {
    Seq::new(values.len(), |j: int| embed(value(values[j])))
}

proof fn lemma_spectrum_near<R: FourierResolution>(
    value: spec_fn(R) -> real,
    u: real,
    e: real,
    root: Number,
    inverse: Number,
    values: Seq<R>,
    spectrum: Vec<Complex<R>>,
    k: int,
)
    requires
        rounded(value, u),
        near_transforms(value, e, root, inverse, values.len()),
        forall|m: nat| extent(#[trigger] root.power(m)) <= 2real,
        spectrum_of(values, spectrum),
        spectrum@.len() == values.len(),
        0 <= k < values.len(),
    ensures
        extent(
            difference(
                numbers(value, spectrum@)[k],
                discrete_transform(embeddings(value, values), root)[k],
            ),
        ) <= e * total_magnitude(values.map_values(value)),
        extent(discrete_transform(embeddings(value, values), root)[k]) <= 2real * total_magnitude(
            values.map_values(value),
        ),
{
    let (zero, embedding) = choose|zero: R, embedding: Vec<Complex<R>>| #[trigger]
        transformed(values, zero, embedding, spectrum);
    let xs = embeddings(value, values);
    assert(numbers(value, embedding@) =~= xs);
    let sizes = |j: int| extent(xs[j]);
    let magnitudes = |j: int| magnitude(values.map_values(value)[j]);
    lemma_sum_equal(values.len(), sizes, magnitudes);
    assert(total_extent(xs) == total_magnitude(values.map_values(value)));
    assert(spectrum@[k] == spectrum@[k]);
    lemma_transform_bounded(xs, root, k);
}

proof fn lemma_powers_bounded(root: Number, inverse: Number, n: nat)
    requires
        n > 0,
        primitive_root(root, n),
        root.times(inverse) == embed(1real),
    ensures
        forall|m: nat| extent(#[trigger] root.power(m)) <= 2real,
        forall|m: nat| extent(#[trigger] inverse.power(m)) <= 2real,
{
    lemma_root_on_circle(root, n, 0);
    lemma_modulus_of_product(root, inverse);
    lemma_units(modulus(inverse));
    lemma_units(1real);
    lemma_units(0real);
    assert(modulus(embed(1real)) == 1real);
    assert forall|m: nat| extent(#[trigger] root.power(m)) <= 2real by {
        lemma_power_on_circle(root, m);
        lemma_extent_on_circle(root.power(m));
    }
    assert forall|m: nat| extent(#[trigger] inverse.power(m)) <= 2real by {
        lemma_power_on_circle(inverse, m);
        lemma_extent_on_circle(inverse.power(m));
    }
}

/// One component of the product of two spectra.
proof fn lemma_spectrum_product_near<R: FourierResolution>(
    value: spec_fn(R) -> real,
    u: real,
    e: real,
    root: Number,
    inverse: Number,
    a: Seq<R>,
    b: Seq<R>,
    left: Vec<Complex<R>>,
    right: Vec<Complex<R>>,
    spectrum: Vec<Complex<R>>,
    k: int,
)
    requires
        a.len() == b.len(),
        0real <= e <= 1real,
        rounded(value, u),
        near_transforms(value, e, root, inverse, a.len()),
        forall|m: nat| extent(#[trigger] root.power(m)) <= 2real,
        spectrum_of(a, left),
        spectrum_of(b, right),
        left@.len() == a.len(),
        spectrum_product(left@, right@, spectrum@),
        0 <= k < a.len(),
    ensures
        ({
            let both = total_magnitude(a.map_values(value)) * total_magnitude(b.map_values(value));
            let exact_product = pointwise(
                discrete_transform(embeddings(value, a), root),
                discrete_transform(embeddings(value, b), root),
            )[k];
            &&& extent(difference(numbers(value, spectrum@)[k], exact_product)) <= 27real * (u
                * both) + 5real * (e * both)
            &&& extent(numbers(value, spectrum@)[k]) <= 13real * both
        }),
{
    let (p, q) = (
        total_magnitude(a.map_values(value)),
        total_magnitude(b.map_values(value)),
    );
    lemma_convolution_bounded(a.map_values(value), b.map_values(value), 0);
    lemma_spectrum_near(value, u, e, root, inverse, a, left, k);
    lemma_spectrum_near(value, u, e, root, inverse, b, right, k);
    assert(complex_product(left@[k], right@[k], spectrum@[k]));
    let (l, r, out) = (
        numbers(value, left@)[k],
        numbers(value, right@)[k],
        numbers(value, spectrum@)[k],
    );
    lemma_rounded_product(value, u, left@[k], right@[k], spectrum@[k], l, r, out);
    lemma_product_near(
        u,
        e,
        p,
        q,
        discrete_transform(embeddings(value, a), root)[k],
        discrete_transform(embeddings(value, b), root)[k],
        l,
        r,
        out,
    );
    lemma_nonnegative(p, q);
    lemma_parts(u, e, p * q);
}

proof fn lemma_spectrum_len<R: FourierResolution>(values: Seq<R>, spectrum: Vec<Complex<R>>)
    requires
        spectrum_of(values, spectrum),
    ensures
        spectrum@.len() == values.len(),
{
    let (zero, embedding) = choose|zero: R, embedding: Vec<Complex<R>>| #[trigger]
        transformed(values, zero, embedding, spectrum);
}

/// One component of the inverse transform: `n` times that of the convolution, up to the bound.
proof fn lemma_back_near<R: FourierResolution>(
    value: spec_fn(R) -> real,
    u: real,
    e: real,
    root: Number,
    inverse: Number,
    a: Seq<R>,
    b: Seq<R>,
    left: Vec<Complex<R>>,
    right: Vec<Complex<R>>,
    spectrum: Vec<Complex<R>>,
    values: Vec<Complex<R>>,
    i: int,
)
    requires
        combinable(a.len(), b.len()),
        0real <= e <= 1real,
        rounded(value, u),
        primitive_root(root, a.len()),
        root.times(inverse) == embed(1real),
        near_transforms(value, e, root, inverse, a.len()),
        spectrum_of(a, left),
        spectrum_of(b, right),
        spectrum_product(left@, right@, spectrum@),
        call_ensures(R::inverse_transform, (spectrum,), values),
        0 <= i < a.len(),
    ensures
        ({
            let both = total_magnitude(a.map_values(value)) * total_magnitude(b.map_values(value));
            let n = (a.len() as int) as real;
            magnitude(
                value(values@[i].re) - n * circular_convolution(
                    a.map_values(value),
                    b.map_values(value),
                )[i],
            ) <= n * (54real * (u * both) + 23real * (e * both))
        }),
{
    let size = a.len();
    let n = (size as int) as real;
    let (ra, rb) = (a.map_values(value), b.map_values(value));
    let (xs, ys) = (embeddings(value, a), embeddings(value, b));
    let k = total_magnitude(ra) * total_magnitude(rb);
    lemma_powers_bounded(root, inverse, size);
    lemma_spectrum_len(a, left);
    let computed = numbers(value, spectrum@);
    let product = pointwise(discrete_transform(xs, root), discrete_transform(ys, root));
    let d = 27real * (u * k) + 5real * (e * k);
    assert forall|j: int| 0 <= j < size implies extent(
        difference(#[trigger] computed[j], product[j]),
    ) <= d by {
        lemma_spectrum_product_near(
            value, u, e, root, inverse, a, b, left, right, spectrum, j,
        );
    }
    lemma_transforms_close(computed, product, inverse, d, i);

    // What the inverse transform adds.
    let extents = |j: int| extent(computed[j]);
    let ones = |j: int| 1real;
    assert forall|j: int| 0 <= j < size implies #[trigger] extents(j) <= (13real * k) * ones(
        j,
    ) by {
        lemma_spectrum_product_near(
            value, u, e, root, inverse, a, b, left, right, spectrum, j,
        );
        lemma_units(13real * k);
    }
    lemma_sum_bounded(size, extents, ones, 13real * k);
    lemma_sum_of_ones(size, ones);
    lemma_monotone(e, total_extent(computed), (13real * k) * n);
    assert(values@[i] == values@[i]);
    let back = numbers(value, values@)[i];
    let (near, exact_back) = (
        discrete_transform(computed, inverse)[i],
        discrete_transform(product, inverse)[i],
    );
    assert(extent(difference(back, near)) <= e * ((13real * k) * n));
    assert(extent(difference(near, exact_back)) <= (2real * d) * n);

    // The convolution theorem.
    lemma_convolution_component(xs, ys, root, inverse, i);
    let terms = |j: int| ra[j] * rb[(i - j) % (size as int)];
    let convolved = |j: int| xs[j].times(ys[(i - j) % (size as int)]);
    assert forall|j: int| 0 <= j < size implies #[trigger] convolved(j) == embed(terms(j)) by {
        lemma_remainders(size as int, i, j, 0);
        lemma_embedded_product(ra[j], rb[(i - j) % (size as int)]);
    }
    lemma_sum_of_embedded(size, convolved, terms);
    let c = circular_convolution(ra, rb)[i];
    lemma_embedded_product(c, size as real);
    lemma_commutes(c, n);
    assert(exact_back == embed(n * c));
    lemma_gathered(u, e, k, n);
}

proof fn lemma_gathered(u: real, e: real, k: real, n: real)
    ensures
        e * ((13real * k) * n) + (2real * (27real * (u * k) + 5real * (e * k))) * n == n * (54real
            * (u * k) + 23real * (e * k)),
{
    let (uk, ek) = (u * k, e * k);
    assert(e * ((13real * k) * n) == n * (13real * ek)) by {
        lemma_associates(e, 13real * k, n);
        lemma_associates(e, 13real, k);
        lemma_commutes(e, 13real);
        lemma_associates(13real, e, k);
        lemma_commutes(13real * ek, n);
    }
    let d = 2real * (27real * uk + 5real * ek);
    lemma_commutes(d, n);
    lemma_distributes(n, 13real * ek, d);
}

/// Where the arithmetic is rounded and the transforms are near the discrete Fourier transform,
/// every component of a binding is near that of the circular convolution, whatever the size: it
/// differs by no more than a fixed multiple of the error of an operation, times what the
/// magnitudes of the two vectors add up to.
pub proof fn bind_is_near_circular_convolution<R: FourierResolution>(
    value: spec_fn(R) -> real,
    u: real,
    e: real,
    root: Number,
    inverse: Number,
    a: Seq<R>,
    b: Seq<R>,
    out: Seq<R>,
)
    requires
        combinable(a.len(), b.len()),
        0real <= e <= 1real,
        rounded(value, u),
        primitive_root(root, a.len()),
        root.times(inverse) == embed(1real),
        near_transforms(value, e, root, inverse, a.len()),
        bound(a, b, out),
    ensures
        out.len() == a.len(),
        forall|i: int|
            0 <= i < a.len() ==> magnitude(
                value(#[trigger] out[i]) - circular_convolution(
                    a.map_values(value),
                    b.map_values(value),
                )[i],
            ) <= 200real * ((u + e) * (total_magnitude(a.map_values(value)) * total_magnitude(
                b.map_values(value),
            ))),
{
    let size = a.len();
    let n = (size as int) as real;
    let (ra, rb) = (a.map_values(value), b.map_values(value));
    let k = total_magnitude(ra) * total_magnitude(rb);
    let (left, right, spectrum, values) = choose|
        left: Vec<Complex<R>>,
        right: Vec<Complex<R>>,
        spectrum: Vec<Complex<R>>,
        values: Vec<Complex<R>>,
    | #[trigger]
        bind_steps(a, b, left, right, spectrum, values, out);
    let (one, count, scale) = choose|one: R, count: R, scale: R| #[trigger]
        rescale_steps(values@, size, one, count, scale, out);
    lemma_spectrum_len(a, left);
    assert(values@.len() == spectrum@.len());
    assert forall|i: int| 0 <= i < size implies magnitude(
        value(#[trigger] out[i]) - circular_convolution(ra, rb)[i],
    ) <= 200real * ((u + e) * k) by {
        let c = circular_convolution(ra, rb)[i];
        let x = 54real * (u * k) + 23real * (e * k);
        lemma_convolution_bounded(ra, rb, i);
        lemma_nonnegative(total_magnitude(ra), total_magnitude(rb));
        lemma_parts(u, e, k);
        lemma_parts(u, e, n);
        lemma_back_near(
            value, u, e, root, inverse, a, b, left, right, spectrum, values, i,
        );
        assert(call_ensures(R::times, (values@[i].re, scale), out[i]));
        assert(value(count) != 0real);
        lemma_units(u);
        lemma_rescaled(
            u,
            k,
            x,
            n,
            value(count),
            value(scale),
            value(values@[i].re),
            c,
            value(out[i]),
        );
        lemma_final_bound(u, e, k, magnitude(value(out[i]) - c));
    }
}

} // verus!
