//! Finite sums of real numbers.

use vstd::prelude::*;

verus! {

/// The sum of `f(0)`, ..., `f(n - 1)`.
pub open spec fn real_sum(n: nat, f: spec_fn(int) -> real) -> real
    decreases n,
{
    if n == 0 {
        0real
    } else {
        real_sum((n - 1) as nat, f) + f(n - 1)
    }
}

/// The scalar product of two vectors of the same size.
pub open spec fn scalar_product(a: Seq<real>, b: Seq<real>) -> real {
    real_sum(a.len(), |i: int| a[i] * b[i])
}

pub(crate) proof fn lemma_distributes(x: real, y: real, z: real)
    by (nonlinear_arith)
    ensures
        x * (y + z) == x * y + x * z,
        (y + z) * x == y * x + z * x,
{
}

pub(crate) proof fn lemma_commutes(x: real, y: real)
    by (nonlinear_arith)
    ensures
        x * y == y * x,
{
}

pub(crate) proof fn lemma_associates(x: real, y: real, z: real)
    by (nonlinear_arith)
    ensures
        x * (y * z) == (x * y) * z,
{
}

pub(crate) proof fn lemma_units(x: real)
    by (nonlinear_arith)
    ensures
        x * 1real == x,
        x * 0real == 0real,
        0real * x == 0real,
        1real * x == x,
{
}

pub(crate) proof fn lemma_square(x: real)
    by (nonlinear_arith)
    ensures
        x * x >= 0real,
        x * x == 0real ==> x == 0real,
{
}

pub(crate) proof fn lemma_sum_equal(n: nat, f: spec_fn(int) -> real, g: spec_fn(int) -> real)
    requires
        forall|i: int| 0 <= i < n ==> #[trigger] f(i) == g(i),
    ensures
        real_sum(n, f) == real_sum(n, g),
    decreases n,
{
    if n > 0 {
        lemma_sum_equal((n - 1) as nat, f, g);
        assert(f(n - 1) == g(n - 1));
    }
}

pub(crate) proof fn lemma_sum_scaled(
    n: nat,
    f: spec_fn(int) -> real,
    x: real,
    g: spec_fn(int) -> real,
)
    requires
        forall|i: int| 0 <= i < n ==> #[trigger] g(i) == x * f(i),
    ensures
        real_sum(n, g) == x * real_sum(n, f),
    decreases n,
{
    if n == 0 {
        lemma_units(x);
    } else {
        lemma_sum_scaled((n - 1) as nat, f, x, g);
        assert(g(n - 1) == x * f(n - 1));
        lemma_distributes(x, real_sum((n - 1) as nat, f), f(n - 1));
    }
}

pub(crate) proof fn lemma_sum_added(
    n: nat,
    f: spec_fn(int) -> real,
    g: spec_fn(int) -> real,
    h: spec_fn(int) -> real,
)
    requires
        forall|i: int| 0 <= i < n ==> #[trigger] h(i) == f(i) + g(i),
    ensures
        real_sum(n, h) == real_sum(n, f) + real_sum(n, g),
    decreases n,
{
    if n > 0 {
        lemma_sum_added((n - 1) as nat, f, g, h);
        assert(h(n - 1) == f(n - 1) + g(n - 1));
    }
}

pub(crate) proof fn lemma_sum_of_zeros(n: nat, f: spec_fn(int) -> real)
    requires
        forall|i: int| 0 <= i < n ==> #[trigger] f(i) == 0real,
    ensures
        real_sum(n, f) == 0real,
    decreases n,
{
    if n > 0 {
        lemma_sum_of_zeros((n - 1) as nat, f);
        assert(f(n - 1) == 0real);
    }
}

pub(crate) proof fn lemma_sum_single(n: nat, f: spec_fn(int) -> real, at: int)
    requires
        0 <= at < n,
        forall|i: int| 0 <= i < n && i != at ==> #[trigger] f(i) == 0real,
    ensures
        real_sum(n, f) == f(at),
    decreases n,
{
    let k = (n - 1) as nat;
    if at == n - 1 {
        lemma_sum_of_zeros(k, f);
    } else {
        lemma_sum_single(k, f, at);
        assert(f(n - 1) == 0real);
    }
}

pub(crate) proof fn lemma_sum_bounds(n: nat, f: spec_fn(int) -> real, at: int)
    requires
        forall|i: int| 0 <= i < n ==> #[trigger] f(i) >= 0real,
    ensures
        real_sum(n, f) >= 0real,
        0 <= at < n ==> real_sum(n, f) >= f(at),
    decreases n,
{
    if n > 0 {
        lemma_sum_bounds((n - 1) as nat, f, at);
        assert(f(n - 1) >= 0real);
    }
}

pub(crate) proof fn lemma_sums_interchange(
    m: nat,
    n: nat,
    f: spec_fn(int, int) -> real,
    rows: spec_fn(int) -> real,
    columns: spec_fn(int) -> real,
)
    requires
        forall|i: int| 0 <= i < m ==> #[trigger] rows(i) == real_sum(n, |j: int| f(i, j)),
        forall|j: int| 0 <= j < n ==> #[trigger] columns(j) == real_sum(m, |i: int| f(i, j)),
    ensures
        real_sum(m, rows) == real_sum(n, columns),
    decreases m,
{
    if m == 0 {
        lemma_sum_of_zeros(n, columns);
    } else {
        let k = (m - 1) as nat;
        let shorter = |j: int| real_sum(k, |i: int| f(i, j));
        let last = |j: int| f(m - 1, j);
        lemma_sums_interchange(k, n, f, rows, shorter);
        assert(rows(m - 1) == real_sum(n, last));
        lemma_sum_added(n, shorter, last, columns);
    }
}

/// The first term of a sum, taken out.
pub(crate) proof fn lemma_sum_first(n: nat, f: spec_fn(int) -> real, rest: spec_fn(int) -> real)
    requires
        n > 0,
        forall|i: int| 0 <= i < n - 1 ==> #[trigger] rest(i) == f(i + 1),
    ensures
        real_sum(n, f) == f(0) + real_sum((n - 1) as nat, rest),
    decreases n,
{
    if n > 1 {
        lemma_sum_first((n - 1) as nat, f, rest);
        assert(rest(n - 2) == f(n - 2 + 1));
    } else {
        assert(real_sum(0, f) == 0real);
        assert(real_sum(1, f) == real_sum(0, f) + f(0));
    }
}

/// A sum in the opposite order.
pub(crate) proof fn lemma_sum_reversed(n: nat, f: spec_fn(int) -> real, g: spec_fn(int) -> real)
    requires
        forall|i: int| 0 <= i < n ==> #[trigger] g(i) == f(n - 1 - i),
    ensures
        real_sum(n, g) == real_sum(n, f),
    decreases n,
{
    if n > 0 {
        let rest = |i: int| g(i + 1);
        lemma_sum_first(n, g, rest);
        assert(g(0) == f(n - 1));
        assert forall|i: int| 0 <= i < n - 1 implies #[trigger] rest(i) == f(n - 2 - i) by {
            assert(g(i + 1) == f(n - 1 - (i + 1)));
        }
        lemma_sum_reversed((n - 1) as nat, f, rest);
    }
}

/// A sum that starts one place further on and comes round to the first term at the end.
proof fn lemma_sum_rotated_once(n: nat, f: spec_fn(int) -> real, g: spec_fn(int) -> real)
    requires
        n > 0,
        forall|i: int| 0 <= i < n - 1 ==> #[trigger] g(i) == f(i + 1),
        g(n - 1) == f(0),
    ensures
        real_sum(n, g) == real_sum(n, f),
{
    lemma_sum_first(n, f, g);
}

/// A sum over the places modulo `n`, with every place shifted.
pub(crate) proof fn lemma_sum_rotated(
    n: nat,
    f: spec_fn(int) -> real,
    shift: nat,
    g: spec_fn(int) -> real,
)
    requires
        n > 0,
        forall|i: int| 0 <= i < n ==> #[trigger] g(i) == f((i + shift) % (n as int)),
    ensures
        real_sum(n, g) == real_sum(n, f),
    decreases shift,
{
    if shift == 0 {
        assert forall|i: int| 0 <= i < n implies #[trigger] g(i) == f(i) by {
            vstd::arithmetic::div_mod::lemma_small_mod(i as nat, n);
        }
        lemma_sum_equal(n, g, f);
    } else {
        let before = |i: int| f((i + (shift - 1)) % (n as int));
        lemma_sum_rotated(n, f, (shift - 1) as nat, before);
        assert forall|i: int| 0 <= i < n - 1 implies #[trigger] g(i) == before(i + 1) by {
            assert(i + 1 + (shift - 1) == i + shift);
        }
        assert(g(n - 1) == before(0)) by {
            vstd::arithmetic::div_mod::lemma_mod_add_multiples_vanish(shift - 1, n as int);
            assert(n - 1 + shift == n as int + (shift - 1));
        }
        lemma_sum_rotated_once(n, before, g);
    }
}

proof fn lemma_square_of_difference(p: real, q: real)
    by (nonlinear_arith)
    ensures
        (p - q) * (p - q) == p * p - 2real * (p * q) + q * q,
{
}

pub(crate) proof fn lemma_products_interchange(x: real, y: real, z: real, w: real)
    by (nonlinear_arith)
    ensures
        (x * y) * (z * w) == (x * z) * (y * w),
{
}

proof fn lemma_factor_nonnegative(x: real, y: real)
    by (nonlinear_arith)
    requires
        x > 0real,
        x * y >= 0real,
    ensures
        y >= 0real,
{
}

/// The square of the length of a vector is no less than the square of any component.
pub(crate) proof fn lemma_scalar_square(a: Seq<real>, at: int)
    ensures
        scalar_product(a, a) >= 0real,
        0 <= at < a.len() ==> scalar_product(a, a) >= a[at] * a[at],
{
    let f = |i: int| a[i] * a[i];
    assert forall|i: int| 0 <= i < a.len() implies #[trigger] f(i) >= 0real by {
        lemma_square(a[i]);
    }
    lemma_sum_bounds(a.len(), f, at);
}

/// The inequality of Cauchy and Schwarz.
pub(crate) proof fn lemma_cauchy_schwarz(a: Seq<real>, b: Seq<real>)
    requires
        a.len() == b.len(),
    ensures
        scalar_product(a, b) * scalar_product(a, b) <= scalar_product(a, a) * scalar_product(b, b),
{
    let n = a.len();
    let (aa, bb, ab) = (scalar_product(a, a), scalar_product(b, b), scalar_product(a, b));
    let mixed = |i: int| a[i] * b[i];
    lemma_scalar_square(a, -1);
    if aa == 0real {
        assert forall|i: int| 0 <= i < n implies #[trigger] mixed(i) == 0real by {
            lemma_scalar_square(a, i);
            lemma_square(a[i]);
            lemma_units(b[i]);
        }
        lemma_sum_of_zeros(n, mixed);
        lemma_units(bb);
        lemma_units(0real);
    } else {
        let left = |i: int| a[i] * a[i];
        let right = |i: int| b[i] * b[i];
        let first = |i: int| (aa * aa) * right(i);
        let second = |i: int| (-2real * (aa * ab)) * mixed(i);
        let third = |i: int| (ab * ab) * left(i);
        let partial = |i: int| first(i) + second(i);
        let all = |i: int| partial(i) + third(i);
        assert forall|i: int| 0 <= i < n implies #[trigger] all(i) >= 0real by {
            let (x, y) = (a[i], b[i]);
            let (p, q) = (aa * y, ab * x);
            lemma_square_of_difference(p, q);
            lemma_square(p - q);
            lemma_products_interchange(aa, y, aa, y);
            lemma_products_interchange(ab, x, ab, x);
            lemma_products_interchange(aa, y, ab, x);
            lemma_associates(-2real, aa * ab, x * y);
        }
        lemma_sum_bounds(n, all, -1);
        lemma_sum_added(n, partial, third, all);
        lemma_sum_added(n, first, second, partial);
        lemma_sum_scaled(n, right, aa * aa, first);
        lemma_sum_scaled(n, mixed, -2real * (aa * ab), second);
        lemma_sum_scaled(n, left, ab * ab, third);
        assert((aa * aa) * bb + (-2real * (aa * ab)) * ab + (ab * ab) * aa >= 0real);
        lemma_associates(aa, aa, bb);
        lemma_associates(-2real, aa * ab, ab);
        lemma_associates(aa, ab, ab);
        assert((ab * ab) * aa == aa * (ab * ab));
        lemma_distributes(aa, aa * bb, -(ab * ab));
        lemma_negates(aa, ab * ab);
        lemma_factor_nonnegative(aa, aa * bb + (-(ab * ab)));
    }
}

proof fn lemma_negates(x: real, y: real)
    by (nonlinear_arith)
    ensures
        x * (-y) == -(x * y),
{
}

} // verus!
