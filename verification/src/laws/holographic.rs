//! Laws of the circular convolution, which binding computes where the arithmetic is exact.

use vstd::arithmetic::div_mod::{lemma_mod_add_multiples_vanish, lemma_mod_bound};
use vstd::arithmetic::div_mod::{lemma_small_mod, lemma_sub_mod_noop, lemma_sub_mod_noop_right};
use vstd::prelude::*;

use crate::arithmetic::added;
use crate::holographic::bound;
use crate::laws::complex::Number;
use crate::laws::convolution::{bind_is_circular_convolution, circular_convolution, exact_fourier};
use crate::laws::convolution::lemma_remainders;
use crate::laws::real_sums::{lemma_associates, lemma_commutes, lemma_distributes};
use crate::laws::real_sums::{lemma_sum_added, lemma_sum_equal, lemma_sum_reversed};
use crate::laws::real_sums::{lemma_sum_rotated, lemma_sum_scaled, lemma_sum_single};
use crate::laws::real_sums::{lemma_sums_interchange, lemma_units, real_sum, scalar_product};
use crate::laws::rotation::permute_reads;
use crate::model::{permuted, reflected};
use crate::resolution::FourierResolution;
use crate::storage::combinable;

verus! {

/// The sums of the components at the same position.
pub open spec fn real_sums(a: Seq<real>, b: Seq<real>) -> Seq<real> {
    Seq::new(a.len(), |i: int| a[i] + b[i])
}

/// The vector that is one at the first position and zero elsewhere.
pub open spec fn impulse(n: nat) -> Seq<real> {
    Seq::new(
        n,
        |i: int|
            if i == 0 {
                1real
            } else {
                0real
            },
    )
}

proof fn lemma_mod_difference(x: int, y: int, n: int)
    requires
        n > 0,
    ensures
        (x % n - y) % n == (x - y) % n,
        (x - y % n) % n == (x - y) % n,
        0 <= (x - y) % n < n,
{
    lemma_sub_mod_noop(x, y, n);
    lemma_sub_mod_noop_right(x % n, y, n);
    lemma_sub_mod_noop_right(x, y, n);
    lemma_mod_bound(x - y, n);
}

/// A sum over the places modulo `n`, taken backwards from `i`.
proof fn lemma_sum_reflected(
    n: nat,
    f: spec_fn(int) -> real,
    i: int,
    g: spec_fn(int) -> real,
)
    requires
        0 <= i < n,
        forall|j: int| 0 <= j < n ==> #[trigger] g(j) == f((i - j) % (n as int)),
    ensures
        real_sum(n, g) == real_sum(n, f),
{
    let shift = (i + 1) as nat;
    let rotated = |j: int| f((j + shift) % (n as int));
    lemma_sum_rotated(n, f, shift, rotated);
    assert forall|j: int| 0 <= j < n implies #[trigger] g(j) == rotated(n - 1 - j) by {
        lemma_mod_add_multiples_vanish(i - j, n as int);
        assert(n - 1 - j + shift == n as int + (i - j));
    }
    lemma_sum_reversed(n, rotated, g);
}

/// The order of the two vectors does not matter.
pub proof fn convolution_commutes(a: Seq<real>, b: Seq<real>)
    requires
        a.len() == b.len(),
    ensures
        circular_convolution(a, b) == circular_convolution(b, a),
{
    let n = a.len();
    assert forall|i: int| 0 <= i < n implies #[trigger] circular_convolution(a, b)[i]
        == circular_convolution(b, a)[i] by {
        let f = |j: int| b[j] * a[(i - j) % (n as int)];
        let g = |j: int| a[j] * b[(i - j) % (n as int)];
        assert forall|j: int| 0 <= j < n implies #[trigger] g(j) == f((i - j) % (n as int)) by {
            let k = (i - j) % (n as int);
            lemma_mod_difference(i, i - j, n as int);
            lemma_small_mod(j as nat, n);
            lemma_commutes(a[j], b[k]);
        }
        lemma_sum_reflected(n, f, i, g);
    }
    assert(circular_convolution(a, b) =~= circular_convolution(b, a));
}

/// The impulse is neutral.
pub proof fn convolution_neutral(a: Seq<real>)
    ensures
        circular_convolution(a, impulse(a.len())) == a,
{
    let n = a.len();
    assert forall|i: int| 0 <= i < n implies #[trigger] circular_convolution(
        a,
        impulse(n),
    )[i] == a[i] by {
        let f = |j: int| a[j] * impulse(n)[(i - j) % (n as int)];
        assert forall|j: int| 0 <= j < n && j != i implies #[trigger] f(j) == 0real by {
            lemma_remainders(n as int, i, j, 0);
            if i > j {
                lemma_small_mod((i - j) as nat, n);
            } else {
                lemma_mod_add_multiples_vanish(i - j, n as int);
                lemma_small_mod((n + i - j) as nat, n);
            }
            lemma_units(a[j]);
        }
        lemma_sum_single(n, f, i);
        lemma_small_mod(0, n);
        lemma_units(a[i]);
    }
    assert(circular_convolution(a, impulse(n)) =~= a);
}

/// Convolution distributes over sums, as binding does over bundling.
pub proof fn convolution_distributes(a: Seq<real>, b: Seq<real>, c: Seq<real>)
    requires
        a.len() == b.len() == c.len(),
    ensures
        circular_convolution(real_sums(a, b), c) == real_sums(
            circular_convolution(a, c),
            circular_convolution(b, c),
        ),
{
    let n = a.len();
    assert forall|i: int| 0 <= i < n implies #[trigger] circular_convolution(
        real_sums(a, b),
        c,
    )[i] == circular_convolution(a, c)[i] + circular_convolution(b, c)[i] by {
        let f = |j: int| a[j] * c[(i - j) % (n as int)];
        let g = |j: int| b[j] * c[(i - j) % (n as int)];
        let h = |j: int| real_sums(a, b)[j] * c[(i - j) % (n as int)];
        assert forall|j: int| 0 <= j < n implies #[trigger] h(j) == f(j) + g(j) by {
            lemma_distributes(c[(i - j) % (n as int)], a[j], b[j]);
        }
        lemma_sum_added(n, f, g, h);
    }
    assert(circular_convolution(real_sums(a, b), c) =~= real_sums(
        circular_convolution(a, c),
        circular_convolution(b, c),
    ));
}

/// The grouping of three vectors does not matter.
pub proof fn convolution_associates(a: Seq<real>, b: Seq<real>, c: Seq<real>)
    requires
        a.len() == b.len() == c.len(),
    ensures
        circular_convolution(circular_convolution(a, b), c) == circular_convolution(
            a,
            circular_convolution(b, c),
        ),
{
    let n = a.len();
    let (ab, bc) = (circular_convolution(a, b), circular_convolution(b, c));
    assert forall|i: int| 0 <= i < n implies #[trigger] circular_convolution(ab, c)[i]
        == circular_convolution(a, bc)[i] by {
        let term = |j: int, k: int| (a[k] * b[(j - k) % (n as int)]) * c[(i - j) % (n as int)];
        let rows = |j: int| ab[j] * c[(i - j) % (n as int)];
        let columns = |k: int| a[k] * bc[(i - k) % (n as int)];
        assert forall|j: int| 0 <= j < n implies #[trigger] rows(j) == real_sum(
            n,
            |k: int| term(j, k),
        ) by {
            let x = c[(i - j) % (n as int)];
            let f = |k: int| a[k] * b[(j - k) % (n as int)];
            let g = |k: int| term(j, k);
            assert forall|k: int| 0 <= k < n implies #[trigger] g(k) == x * f(k) by {
                lemma_commutes(x, f(k));
            }
            lemma_sum_scaled(n, f, x, g);
            lemma_commutes(ab[j], x);
        }
        assert forall|k: int| 0 <= k < n implies #[trigger] columns(k) == real_sum(
            n,
            |j: int| term(j, k),
        ) by {
            let at = (i - k) % (n as int);
            let f = |j: int| b[(j - k) % (n as int)] * c[(i - j) % (n as int)];
            let g = |l: int| b[l] * c[(at - l) % (n as int)];
            let h = |j: int| term(j, k);
            lemma_mod_difference(i, k, n as int);
            assert forall|l: int| 0 <= l < n implies #[trigger] g(l) == f((l + k) % (n as int)) by {
                lemma_mod_difference(l + k, k, n as int);
                lemma_small_mod(l as nat, n);
                lemma_mod_difference(i, l + k, n as int);
                lemma_mod_difference(i - k, l, n as int);
                assert(i - k - l == i - (l + k));
            }
            lemma_sum_rotated(n, f, k as nat, g);
            assert forall|j: int| 0 <= j < n implies #[trigger] h(j) == a[k] * f(j) by {
                lemma_associates(a[k], b[(j - k) % (n as int)], c[(i - j) % (n as int)]);
            }
            lemma_sum_scaled(n, f, a[k], h);
            assert(bc[at] == real_sum(n, g)) by {
                lemma_sum_equal(n, |j: int| b[j] * c[(at - j) % (n as int)], g);
            }
        }
        lemma_sums_interchange(n, n, term, rows, columns);
    }
    assert(circular_convolution(ab, c) =~= circular_convolution(a, bc));
}

/// Convolving a permuted vector permutes the convolution.
pub proof fn convolution_of_permuted(a: Seq<real>, b: Seq<real>, shifts: nat)
    requires
        a.len() == b.len(),
    ensures
        circular_convolution(permuted(a, shifts), b) == permuted(
            circular_convolution(a, b),
            shifts,
        ),
{
    let n = a.len();
    let moved = permuted(a, shifts);
    let (left, right) = (
        circular_convolution(moved, b),
        permuted(circular_convolution(a, b), shifts),
    );
    assert forall|i: int| 0 <= i < n implies #[trigger] left[i] == right[i] by {
        let at = (i - shifts) % (n as int);
        let f = |j: int| moved[j] * b[(i - j) % (n as int)];
        let g = |j: int| a[j] * b[(at - j) % (n as int)];
        permute_reads(a, shifts, i);
        permute_reads(circular_convolution(a, b), shifts, i);
        lemma_mod_difference(i, shifts as int, n as int);
        assert forall|j: int| 0 <= j < n implies #[trigger] g(j) == f(
            (j + shifts) % (n as int),
        ) by {
            let k = (j + shifts) % (n as int);
            lemma_mod_bound(j + shifts, n as int);
            permute_reads(a, shifts, k);
            lemma_mod_difference(j + shifts, shifts as int, n as int);
            lemma_small_mod(j as nat, n);
            lemma_mod_difference(i, j + shifts, n as int);
            lemma_mod_difference(i - shifts, j, n as int);
            assert(i - shifts - j == i - (j + shifts));
        }
        lemma_sum_rotated(n, f, shifts, g);
    }
    assert(left =~= right);
}

/// The first component of the convolution of a vector and the inverse of one is the scalar
/// product of the two.
pub proof fn convolution_with_inverse(a: Seq<real>, b: Seq<real>)
    requires
        a.len() == b.len(),
        a.len() > 0,
    ensures
        circular_convolution(a, reflected(b))[0] == scalar_product(a, b),
{
    let n = a.len();
    let f = |j: int| a[j] * reflected(b)[(0 - j) % (n as int)];
    let g = |j: int| a[j] * b[j];
    assert forall|j: int| 0 <= j < n implies #[trigger] f(j) == g(j) by {
        if j == 0 {
            lemma_small_mod(0, n);
        } else {
            lemma_mod_add_multiples_vanish(0 - j, n as int);
            lemma_small_mod((n - j) as nat, n);
        }
    }
    lemma_sum_equal(n, f, g);
    lemma_sum_equal(n, |j: int| a[j] * reflected(b)[(0 - j) % (a.len() as int)], f);
}

/// Where the arithmetic is exact, the order of the two vectors does not matter to binding.
pub proof fn bind_commutes<R: FourierResolution>(
    value: spec_fn(R) -> real,
    root: Number,
    inverse: Number,
    a: Seq<R>,
    b: Seq<R>,
    left: Seq<R>,
    right: Seq<R>,
)
    requires
        combinable(a.len(), b.len()),
        exact_fourier(value, root, inverse, a.len()),
        bound(a, b, left),
        bound(b, a, right),
    ensures
        left.map_values(value) == right.map_values(value),
{
    bind_is_circular_convolution(value, root, inverse, a, b, left);
    bind_is_circular_convolution(value, root, inverse, b, a, right);
    convolution_commutes(a.map_values(value), b.map_values(value));
}

proof fn lemma_bound_len<R: FourierResolution>(
    value: spec_fn(R) -> real,
    root: Number,
    inverse: Number,
    a: Seq<R>,
    b: Seq<R>,
    out: Seq<R>,
)
    requires
        combinable(a.len(), b.len()),
        exact_fourier(value, root, inverse, a.len()),
        bound(a, b, out),
    ensures
        out.len() == a.len(),
{
    bind_is_circular_convolution(value, root, inverse, a, b, out);
    assert(out.map_values(value).len() == a.map_values(value).len());
}

/// Where the arithmetic is exact, the grouping of three vectors does not matter to binding.
pub proof fn bind_associates<R: FourierResolution>(
    value: spec_fn(R) -> real,
    root: Number,
    inverse: Number,
    a: Seq<R>,
    b: Seq<R>,
    c: Seq<R>,
    ab: Seq<R>,
    bc: Seq<R>,
    left: Seq<R>,
    right: Seq<R>,
)
    requires
        combinable(a.len(), b.len()),
        combinable(b.len(), c.len()),
        exact_fourier(value, root, inverse, a.len()),
        bound(a, b, ab),
        bound(ab, c, left),
        bound(b, c, bc),
        bound(a, bc, right),
    ensures
        left.map_values(value) == right.map_values(value),
{
    lemma_bound_len(value, root, inverse, a, b, ab);
    lemma_bound_len(value, root, inverse, b, c, bc);
    bind_is_circular_convolution(value, root, inverse, a, b, ab);
    bind_is_circular_convolution(value, root, inverse, ab, c, left);
    bind_is_circular_convolution(value, root, inverse, b, c, bc);
    bind_is_circular_convolution(value, root, inverse, a, bc, right);
    convolution_associates(a.map_values(value), b.map_values(value), c.map_values(value));
}

/// Where the arithmetic is exact, binding distributes over bundling.
pub proof fn bind_distributes_over_bundle<R: FourierResolution>(
    value: spec_fn(R) -> real,
    root: Number,
    inverse: Number,
    a: Seq<R>,
    b: Seq<R>,
    c: Seq<R>,
    ab: Seq<R>,
    ac: Seq<R>,
    bc: Seq<R>,
    left: Seq<R>,
    right: Seq<R>,
)
    requires
        combinable(a.len(), b.len()),
        combinable(b.len(), c.len()),
        exact_fourier(value, root, inverse, a.len()),
        added(a, b, ab),
        bound(ab, c, left),
        bound(a, c, ac),
        bound(b, c, bc),
        added(ac, bc, right),
    ensures
        left.map_values(value) == right.map_values(value),
{
    let (ra, rb, rc) = (a.map_values(value), b.map_values(value), c.map_values(value));
    lemma_bound_len(value, root, inverse, a, c, ac);
    lemma_bound_len(value, root, inverse, b, c, bc);
    assert(ab.map_values(value) =~= real_sums(ra, rb));
    assert(right.map_values(value) =~= real_sums(ac.map_values(value), bc.map_values(value)));
    bind_is_circular_convolution(value, root, inverse, ab, c, left);
    bind_is_circular_convolution(value, root, inverse, a, c, ac);
    bind_is_circular_convolution(value, root, inverse, b, c, bc);
    convolution_distributes(ra, rb, rc);
}

/// Where the arithmetic is exact, binding with the inverse of a vector undoes binding with it up
/// to the convolution of that vector and its inverse; where that is the impulse, altogether.
pub proof fn inverse_undoes_bind<R: FourierResolution>(
    value: spec_fn(R) -> real,
    root: Number,
    inverse: Number,
    a: Seq<R>,
    b: Seq<R>,
    ab: Seq<R>,
    out: Seq<R>,
)
    requires
        combinable(a.len(), b.len()),
        exact_fourier(value, root, inverse, a.len()),
        bound(a, b, ab),
        bound(ab, reflected(b), out),
    ensures
        out.map_values(value) == circular_convolution(
            a.map_values(value),
            circular_convolution(b.map_values(value), reflected(b.map_values(value))),
        ),
        circular_convolution(b.map_values(value), reflected(b.map_values(value))) == impulse(
            a.len(),
        ) ==> out.map_values(value) == a.map_values(value),
{
    let (ra, rb) = (a.map_values(value), b.map_values(value));
    lemma_bound_len(value, root, inverse, a, b, ab);
    assert(reflected(b).map_values(value) =~= reflected(rb));
    bind_is_circular_convolution(value, root, inverse, a, b, ab);
    bind_is_circular_convolution(value, root, inverse, ab, reflected(b), out);
    convolution_associates(ra, rb, reflected(rb));
    convolution_neutral(ra);
}

/// The inverse, read at a place modulo the size.
proof fn lemma_reflected_reads(b: Seq<real>, m: int)
    requires
        b.len() > 0,
    ensures
        reflected(b)[m % (b.len() as int)] == b[(0 - m) % (b.len() as int)],
{
    let n = b.len() as int;
    let k = m % n;
    lemma_mod_bound(m, n);
    lemma_mod_difference(0, m, n);
    if k == 0 {
        lemma_small_mod(0, n as nat);
    } else {
        lemma_mod_add_multiples_vanish(0 - k, n);
        lemma_small_mod((n - k) as nat, n as nat);
    }
}

/// Convolving with the inverse of a vector is the adjoint of convolving with the vector.
pub proof fn convolution_adjoint(a: Seq<real>, b: Seq<real>, c: Seq<real>)
    requires
        a.len() == b.len() == c.len(),
    ensures
        scalar_product(circular_convolution(a, b), c) == scalar_product(
            a,
            circular_convolution(c, reflected(b)),
        ),
{
    let n = a.len();
    let (ab, cv) = (circular_convolution(a, b), circular_convolution(c, reflected(b)));
    let term = |i: int, j: int| (a[j] * b[(i - j) % (n as int)]) * c[i];
    let rows = |i: int| ab[i] * c[i];
    let columns = |j: int| a[j] * cv[j];
    assert forall|i: int| 0 <= i < n implies #[trigger] rows(i) == real_sum(
        n,
        |j: int| term(i, j),
    ) by {
        let f = |j: int| a[j] * b[(i - j) % (n as int)];
        let g = |j: int| term(i, j);
        assert forall|j: int| 0 <= j < n implies #[trigger] g(j) == c[i] * f(j) by {
            lemma_commutes(c[i], f(j));
        }
        lemma_sum_scaled(n, f, c[i], g);
        lemma_commutes(ab[i], c[i]);
    }
    assert forall|j: int| 0 <= j < n implies #[trigger] columns(j) == real_sum(
        n,
        |i: int| term(i, j),
    ) by {
        let f = |i: int| c[i] * reflected(b)[(j - i) % (n as int)];
        let g = |i: int| term(i, j);
        assert forall|i: int| 0 <= i < n implies #[trigger] g(i) == a[j] * f(i) by {
            let x = b[(i - j) % (n as int)];
            lemma_reflected_reads(b, j - i);
            assert(0 - (j - i) == i - j);
            lemma_associates(a[j], x, c[i]);
            lemma_commutes(x, c[i]);
        }
        lemma_sum_scaled(n, f, a[j], g);
    }
    lemma_sums_interchange(n, n, term, rows, columns);
}

/// Convolving with an impulse that stands at place `shifts` permutes by as many places.
pub proof fn convolution_with_shifted_impulse(a: Seq<real>, shifts: nat)
    ensures
        circular_convolution(a, permuted(impulse(a.len()), shifts)) == permuted(a, shifts),
{
    let e = impulse(a.len());
    if a.len() > 0 {
        convolution_commutes(a, permuted(e, shifts));
        convolution_of_permuted(e, a, shifts);
        convolution_commutes(e, a);
        convolution_neutral(a);
    } else {
        assert(circular_convolution(a, permuted(e, shifts)) =~= permuted(a, shifts));
    }
}

/// Where the arithmetic is exact, binding a permuted vector permutes the binding.
pub proof fn bind_of_permuted<R: FourierResolution>(
    value: spec_fn(R) -> real,
    root: Number,
    inverse: Number,
    a: Seq<R>,
    b: Seq<R>,
    shifts: nat,
    ab: Seq<R>,
    out: Seq<R>,
)
    requires
        combinable(a.len(), b.len()),
        exact_fourier(value, root, inverse, a.len()),
        bound(a, b, ab),
        bound(permuted(a, shifts), b, out),
    ensures
        out.map_values(value) == permuted(ab, shifts).map_values(value),
{
    let (ra, rb) = (a.map_values(value), b.map_values(value));
    lemma_bound_len(value, root, inverse, a, b, ab);
    assert(permuted(a, shifts).map_values(value) =~= permuted(ra, shifts));
    assert(permuted(ab, shifts).map_values(value) =~= permuted(ab.map_values(value), shifts));
    bind_is_circular_convolution(value, root, inverse, a, b, ab);
    bind_is_circular_convolution(value, root, inverse, permuted(a, shifts), b, out);
    convolution_of_permuted(ra, rb, shifts);
}

/// Where the arithmetic is exact, binding with an impulse that stands at place `shifts` permutes
/// by as many places; with one at the first place, it changes nothing.
pub proof fn bind_with_impulse<R: FourierResolution>(
    value: spec_fn(R) -> real,
    root: Number,
    inverse: Number,
    a: Seq<R>,
    b: Seq<R>,
    shifts: nat,
    out: Seq<R>,
)
    requires
        combinable(a.len(), b.len()),
        exact_fourier(value, root, inverse, a.len()),
        b.map_values(value) == permuted(impulse(a.len()), shifts),
        bound(a, b, out),
    ensures
        out.map_values(value) == permuted(a, shifts).map_values(value),
        shifts == 0 ==> out.map_values(value) == a.map_values(value),
{
    let ra = a.map_values(value);
    assert(permuted(a, shifts).map_values(value) =~= permuted(ra, shifts));
    bind_is_circular_convolution(value, root, inverse, a, b, out);
    convolution_with_shifted_impulse(ra, shifts);
    if shifts == 0 {
        lemma_small_mod(0, a.len());
        assert(permuted(ra, 0) =~= ra);
    }
}

/// Where the arithmetic is exact, binding with the inverse of a vector is the adjoint of binding
/// with the vector.
pub proof fn inverse_is_adjoint<R: FourierResolution>(
    value: spec_fn(R) -> real,
    root: Number,
    inverse: Number,
    a: Seq<R>,
    b: Seq<R>,
    c: Seq<R>,
    ab: Seq<R>,
    cv: Seq<R>,
)
    requires
        combinable(a.len(), b.len()),
        combinable(b.len(), c.len()),
        exact_fourier(value, root, inverse, a.len()),
        bound(a, b, ab),
        bound(c, reflected(b), cv),
    ensures
        scalar_product(ab.map_values(value), c.map_values(value)) == scalar_product(
            a.map_values(value),
            cv.map_values(value),
        ),
{
    let (ra, rb, rc) = (a.map_values(value), b.map_values(value), c.map_values(value));
    assert(reflected(b).map_values(value) =~= reflected(rb));
    bind_is_circular_convolution(value, root, inverse, a, b, ab);
    bind_is_circular_convolution(value, root, inverse, c, reflected(b), cv);
    convolution_adjoint(ra, rb, rc);
}

} // verus!
