//! Exact complex arithmetic: powers and finite sums.

use vstd::prelude::*;

use crate::laws::real_sums::{lemma_commutes, lemma_distributes, lemma_square, lemma_units};
use crate::laws::real_sums::real_sum;

verus! {

/// An exact complex number.
pub struct Number {
    /// The real part.
    pub re: real,
    /// The imaginary part.
    pub im: real,
}

/// The complex number that a real one is.
pub open spec fn embed(x: real) -> Number {
    Number { re: x, im: 0real }
}

impl Number {
    /// The sum.
    pub open spec fn plus(self, other: Number) -> Number {
        Number { re: self.re + other.re, im: self.im + other.im }
    }

    /// The product.
    pub open spec fn times(self, other: Number) -> Number {
        Number {
            re: self.re * other.re - self.im * other.im,
            im: self.im * other.re + self.re * other.im,
        }
    }

    /// The power.
    pub open spec fn power(self, exponent: nat) -> Number
        decreases exponent,
    {
        if exponent == 0 {
            embed(1real)
        } else {
            self.power((exponent - 1) as nat).times(self)
        }
    }
}

/// The sum of `f(0)`, ..., `f(n - 1)`.
pub open spec fn sum(n: nat, f: spec_fn(int) -> Number) -> Number
    decreases n,
{
    if n == 0 {
        embed(0real)
    } else {
        sum((n - 1) as nat, f).plus(f(n - 1))
    }
}

proof fn lemma_real_distributes_sub(x: real, y: real, z: real)
    by (nonlinear_arith)
    ensures
        x * (y - z) == x * y - x * z,
{
}

proof fn lemma_real_rotates(x: real, y: real, z: real)
    by (nonlinear_arith)
    ensures
        x * (y * z) == z * (x * y),
{
}

proof fn lemma_real_negates(x: real, y: real)
    by (nonlinear_arith)
    ensures
        (-x) * y == -(x * y),
{
}

pub(crate) proof fn lemma_times_commutes(a: Number, b: Number)
    ensures
        a.times(b) == b.times(a),
{
}

pub(crate) proof fn lemma_times_units(a: Number)
    ensures
        a.times(embed(1real)) == a,
        a.times(embed(0real)) == embed(0real),
{
    lemma_units(a.re);
    lemma_units(a.im);
}

pub(crate) proof fn lemma_times_distributes(a: Number, b: Number, c: Number)
    ensures
        a.times(b.plus(c)) == a.times(b).plus(a.times(c)),
{
    lemma_distributes(a.re, b.re, c.re);
    lemma_distributes(a.im, b.im, c.im);
    lemma_distributes(a.im, b.re, c.re);
    lemma_distributes(a.re, b.im, c.im);
}

pub(crate) proof fn lemma_times_associates(a: Number, b: Number, c: Number)
    ensures
        a.times(b.times(c)) == a.times(b).times(c),
{
    let left = a.times(b.times(c));
    let right = a.times(b).times(c);
    assert(left.re == a.re * (b.re * c.re - b.im * c.im) - a.im * (b.im * c.re + b.re * c.im));
    assert(left.im == a.im * (b.re * c.re - b.im * c.im) + a.re * (b.im * c.re + b.re * c.im));
    assert(right.re == (a.re * b.re - a.im * b.im) * c.re - (a.im * b.re + a.re * b.im) * c.im);
    assert(right.im == (a.im * b.re + a.re * b.im) * c.re + (a.re * b.re - a.im * b.im) * c.im);
    lemma_real_distributes_sub(a.re, b.re * c.re, b.im * c.im);
    lemma_distributes(a.im, b.im * c.re, b.re * c.im);
    lemma_real_distributes_sub(a.im, b.re * c.re, b.im * c.im);
    lemma_distributes(a.re, b.im * c.re, b.re * c.im);
    lemma_real_distributes_sub(c.re, a.re * b.re, a.im * b.im);
    lemma_distributes(c.im, a.im * b.re, a.re * b.im);
    lemma_distributes(c.re, a.im * b.re, a.re * b.im);
    lemma_real_distributes_sub(c.im, a.re * b.re, a.im * b.im);
    lemma_real_rotates(a.re, b.re, c.re);
    lemma_real_rotates(a.re, b.im, c.im);
    lemma_real_rotates(a.im, b.im, c.re);
    lemma_real_rotates(a.im, b.re, c.im);
    lemma_real_rotates(a.im, b.re, c.re);
    lemma_real_rotates(a.im, b.im, c.im);
    lemma_real_rotates(a.re, b.im, c.re);
    lemma_real_rotates(a.re, b.re, c.im);
}

pub(crate) proof fn lemma_power_of_sum(a: Number, m: nat, n: nat)
    ensures
        a.power(m + n) == a.power(m).times(a.power(n)),
    decreases n,
{
    if n == 0 {
        lemma_times_units(a.power(m));
    } else {
        let k = (n - 1) as nat;
        lemma_power_of_sum(a, m, k);
        lemma_times_associates(a.power(m), a.power(k), a);
        assert((m + n - 1) as nat == m + k);
    }
}

pub(crate) proof fn lemma_power_of_one(n: nat)
    ensures
        embed(1real).power(n) == embed(1real),
    decreases n,
{
    if n > 0 {
        lemma_power_of_one((n - 1) as nat);
        lemma_times_units(embed(1real));
    }
}

pub(crate) proof fn lemma_power_of_product(a: Number, m: nat, n: nat)
    ensures
        a.power(m * n) == a.power(m).power(n),
    decreases n,
{
    if n == 0 {
        assert(m * n == 0) by (nonlinear_arith)
            requires
                n == 0,
        ;
    } else {
        let k = (n - 1) as nat;
        lemma_power_of_product(a, m, k);
        lemma_power_of_sum(a, m * k, m);
        assert(m * n == m * k + m) by (nonlinear_arith)
            requires
                n == k + 1,
        ;
    }
}

pub(crate) proof fn lemma_product_interchanges(a: Number, b: Number, c: Number, d: Number)
    ensures
        a.times(b).times(c.times(d)) == a.times(c).times(b.times(d)),
{
    lemma_times_associates(a, b, c.times(d));
    lemma_times_associates(b, c, d);
    lemma_times_commutes(b, c);
    lemma_times_associates(c, b, d);
    lemma_times_associates(a, c, b.times(d));
}

pub(crate) proof fn lemma_power_of_times(a: Number, b: Number, n: nat)
    ensures
        a.times(b).power(n) == a.power(n).times(b.power(n)),
    decreases n,
{
    if n == 0 {
        lemma_times_units(embed(1real));
    } else {
        let k = (n - 1) as nat;
        lemma_power_of_times(a, b, k);
        lemma_product_interchanges(a.power(k), b.power(k), a, b);
    }
}

pub(crate) proof fn lemma_sum_equal(n: nat, f: spec_fn(int) -> Number, g: spec_fn(int) -> Number)
    requires
        forall|i: int| 0 <= i < n ==> #[trigger] f(i) == g(i),
    ensures
        sum(n, f) == sum(n, g),
    decreases n,
{
    if n > 0 {
        lemma_sum_equal((n - 1) as nat, f, g);
        assert(f(n - 1) == g(n - 1));
    }
}

pub(crate) proof fn lemma_sum_scaled(n: nat, f: spec_fn(int) -> Number, a: Number)
    ensures
        sum(n, |i: int| f(i).times(a)) == sum(n, f).times(a),
    decreases n,
{
    let g = |i: int| f(i).times(a);
    if n == 0 {
        lemma_times_units(a);
        lemma_times_commutes(a, embed(0real));
    } else {
        let k = (n - 1) as nat;
        lemma_sum_scaled(k, f, a);
        assert(g(n - 1) == f(n - 1).times(a));
        lemma_times_distributes(a, sum(k, f), f(n - 1));
        lemma_times_commutes(a, sum(k, f).plus(f(n - 1)));
        lemma_times_commutes(a, sum(k, f));
        lemma_times_commutes(a, f(n - 1));
    }
}

pub(crate) proof fn lemma_sum_scaled_left(n: nat, f: spec_fn(int) -> Number, a: Number)
    ensures
        sum(n, |i: int| a.times(f(i))) == a.times(sum(n, f)),
{
    let g = |i: int| a.times(f(i));
    let h = |i: int| f(i).times(a);
    assert forall|i: int| 0 <= i < n implies #[trigger] g(i) == h(i) by {
        lemma_times_commutes(a, f(i));
    }
    lemma_sum_equal(n, g, h);
    lemma_sum_scaled(n, f, a);
    lemma_times_commutes(a, sum(n, f));
}

proof fn lemma_sum_added(
    n: nat,
    f: spec_fn(int) -> Number,
    g: spec_fn(int) -> Number,
    h: spec_fn(int) -> Number,
)
    requires
        forall|i: int| 0 <= i < n ==> #[trigger] h(i) == f(i).plus(g(i)),
    ensures
        sum(n, h) == sum(n, f).plus(sum(n, g)),
    decreases n,
{
    if n > 0 {
        lemma_sum_added((n - 1) as nat, f, g, h);
        assert(h(n - 1) == f(n - 1).plus(g(n - 1)));
    }
}

proof fn lemma_sum_of_zeros(n: nat, f: spec_fn(int) -> Number)
    requires
        forall|i: int| 0 <= i < n ==> #[trigger] f(i) == embed(0real),
    ensures
        sum(n, f) == embed(0real),
    decreases n,
{
    if n > 0 {
        lemma_sum_of_zeros((n - 1) as nat, f);
        assert(f(n - 1) == embed(0real));
    }
}

pub(crate) proof fn lemma_sum_single(n: nat, f: spec_fn(int) -> Number, at: int)
    requires
        0 <= at < n,
        forall|i: int| 0 <= i < n && i != at ==> #[trigger] f(i) == embed(0real),
    ensures
        sum(n, f) == f(at),
    decreases n,
{
    let k = (n - 1) as nat;
    if at == n - 1 {
        lemma_sum_of_zeros(k, f);
    } else {
        lemma_sum_single(k, f, at);
        assert(f(n - 1) == embed(0real));
    }
}

pub(crate) proof fn lemma_sums_interchange(m: nat, n: nat, f: spec_fn(int, int) -> Number)
    ensures
        sum(m, |i: int| sum(n, |j: int| f(i, j))) == sum(n, |j: int| sum(m, |i: int| f(i, j))),
    decreases m,
{
    let rows = |i: int| sum(n, |j: int| f(i, j));
    let columns = |j: int| sum(m, |i: int| f(i, j));
    if m == 0 {
        lemma_sum_of_zeros(n, columns);
    } else {
        let k = (m - 1) as nat;
        let shorter = |j: int| sum(k, |i: int| f(i, j));
        let last = |j: int| f(m - 1, j);
        lemma_sums_interchange(k, n, f);
        assert(rows(m - 1) == sum(n, last));
        lemma_sum_added(n, shorter, last, columns);
    }
}

pub(crate) proof fn lemma_sum_of_embedded(
    n: nat,
    f: spec_fn(int) -> Number,
    g: spec_fn(int) -> real,
)
    requires
        forall|i: int| 0 <= i < n ==> #[trigger] f(i) == embed(g(i)),
    ensures
        sum(n, f) == embed(real_sum(n, g)),
    decreases n,
{
    if n > 0 {
        lemma_sum_of_embedded((n - 1) as nat, f, g);
        assert(f(n - 1) == embed(g(n - 1)));
    }
}

pub(crate) proof fn lemma_sum_of_ones(n: nat, f: spec_fn(int) -> Number)
    requires
        forall|i: int| 0 <= i < n ==> #[trigger] f(i) == embed(1real),
    ensures
        sum(n, f) == embed(n as real),
    decreases n,
{
    if n > 0 {
        lemma_sum_of_ones((n - 1) as nat, f);
        assert(f(n - 1) == embed(1real));
    }
}

proof fn lemma_real_products_vanish(x: real, y: real)
    by (nonlinear_arith)
    requires
        x * y == 0real,
    ensures
        x == 0real || y == 0real,
{
}

proof fn lemma_real_squares_vanish(x: real, y: real)
    by (nonlinear_arith)
    requires
        x * x + y * y == 0real,
    ensures
        x == 0real,
        y == 0real,
{
}

pub(crate) proof fn lemma_products_vanish(a: Number, b: Number)
    requires
        a.times(b) == embed(0real),
    ensures
        a == embed(0real) || b == embed(0real),
{
    let conjugate = Number { re: a.re, im: -a.im };
    let square = a.re * a.re + a.im * a.im;
    let norm = conjugate.times(a);
    assert(norm == embed(square)) by {
        lemma_real_negates(a.im, a.im);
        lemma_real_negates(a.im, a.re);
        assert(norm.re == a.re * a.re - (-a.im) * a.im);
        assert(norm.im == (-a.im) * a.re + a.re * a.im);
        lemma_commutes(a.im, a.re);
    }
    lemma_times_associates(conjugate, a, b);
    lemma_times_units(conjugate);
    lemma_units(b.re);
    lemma_units(b.im);
    assert(embed(square).times(b) == embed(0real));
    assert(square * b.re == 0real);
    assert(square * b.im == 0real);
    lemma_real_products_vanish(square, b.re);
    lemma_real_products_vanish(square, b.im);
    if square == 0real {
        lemma_real_squares_vanish(a.re, a.im);
    }
}

/// Powers of an `n`-th root of unity other than one add up to zero.
pub(crate) proof fn lemma_powers_vanish(n: nat, root: Number, f: spec_fn(int) -> Number)
    requires
        root.power(n) == embed(1real),
        root != embed(1real),
        forall|k: int| 0 <= k < n ==> #[trigger] f(k) == root.power(k as nat),
    ensures
        sum(n, f) == embed(0real),
{
    let shift = Number { re: root.re - 1real, im: root.im };
    lemma_powers_telescope(n, root, f);
    let total = sum(n, f);
    assert(total.times(root) == total);
    assert(shift.plus(embed(1real)) == root);
    lemma_times_distributes(total, shift, embed(1real));
    lemma_times_units(total);
    assert(total.times(shift) == embed(0real));
    lemma_products_vanish(total, shift);
}

proof fn lemma_powers_telescope(n: nat, root: Number, f: spec_fn(int) -> Number)
    requires
        forall|k: int| 0 <= k < n ==> #[trigger] f(k) == root.power(k as nat),
    ensures
        sum(n, f).times(root).plus(embed(1real)) == sum(n, f).plus(root.power(n)),
    decreases n,
{
    if n == 0 {
        lemma_times_units(root);
        lemma_times_commutes(root, embed(0real));
    } else {
        let k = (n - 1) as nat;
        lemma_powers_telescope(k, root, f);
        assert(f(n - 1) == root.power(k));
        lemma_times_distributes(root, sum(k, f), root.power(k));
        lemma_times_commutes(root, sum(k, f).plus(root.power(k)));
        lemma_times_commutes(root, sum(k, f));
        lemma_times_commutes(root, root.power(k));
    }
}

pub(crate) proof fn lemma_embedded_product(x: real, y: real)
    ensures
        embed(x).times(embed(y)) == embed(x * y),
{
    lemma_units(0real);
    lemma_units(x);
    lemma_units(y);
}

pub(crate) proof fn lemma_scale_cancels(x: real, y: real, z: real)
    by (nonlinear_arith)
    requires
        z * y == 1real,
    ensures
        (x * y) * z == x,
{
}

/// The square of the distance from zero.
pub open spec fn modulus(a: Number) -> real {
    a.re * a.re + a.im * a.im
}

spec fn conjugate(a: Number) -> Number {
    Number { re: a.re, im: -a.im }
}

proof fn lemma_modulus_by_conjugate(a: Number)
    ensures
        conjugate(a).times(a) == embed(modulus(a)),
{
    lemma_real_negates(a.im, a.im);
    lemma_real_negates(a.im, a.re);
    lemma_commutes(a.im, a.re);
}

proof fn lemma_conjugate_of_product(a: Number, b: Number)
    ensures
        conjugate(a.times(b)) == conjugate(a).times(conjugate(b)),
{
    lemma_real_negates(a.im, b.re);
    lemma_real_negates(b.im, a.re);
    lemma_commutes(-b.im, a.re);
    lemma_commutes(b.im, a.re);
    lemma_real_negates(a.im, -b.im);
    lemma_commutes(a.im, -b.im);
    lemma_real_negates(b.im, a.im);
    lemma_commutes(b.im, a.im);
}

pub(crate) proof fn lemma_modulus_of_product(a: Number, b: Number)
    ensures
        modulus(a.times(b)) == modulus(a) * modulus(b),
{
    lemma_modulus_by_conjugate(a.times(b));
    lemma_modulus_by_conjugate(a);
    lemma_modulus_by_conjugate(b);
    lemma_conjugate_of_product(a, b);
    lemma_product_interchanges(conjugate(a), conjugate(b), a, b);
    lemma_embedded_product(modulus(a), modulus(b));
}

proof fn lemma_positive_power(a: Number, n: nat)
    requires
        n > 0,
    ensures
        modulus(a) < 1real ==> modulus(a.power(n)) < 1real,
        modulus(a) > 1real ==> modulus(a.power(n)) > 1real,
        modulus(a.power(n)) >= 0real,
    decreases n,
{
    let k = (n - 1) as nat;
    lemma_modulus_of_product(a.power(k), a);
    lemma_square(a.re);
    lemma_square(a.im);
    if k == 0 {
        lemma_times_units(a);
        lemma_times_commutes(a, embed(1real));
    } else {
        lemma_positive_power(a, k);
        lemma_product_about_one(modulus(a.power(k)), modulus(a));
    }
}

proof fn lemma_product_about_one(x: real, y: real)
    by (nonlinear_arith)
    requires
        x >= 0real,
        y >= 0real,
    ensures
        x * y >= 0real,
        x < 1real && y < 1real ==> x * y < 1real,
        x > 1real && y > 1real ==> x * y > 1real,
{
}

/// A root of unity lies on the unit circle, and so do its powers.
pub(crate) proof fn lemma_root_on_circle(root: Number, n: nat, m: nat)
    requires
        n > 0,
        root.power(n) == embed(1real),
    ensures
        modulus(root) == 1real,
        modulus(root.power(m)) == 1real,
{
    lemma_units(1real);
    lemma_units(0real);
    lemma_positive_power(root, n);
    lemma_power_on_circle(root, m);
}

pub(crate) proof fn lemma_power_on_circle(a: Number, m: nat)
    requires
        modulus(a) == 1real,
    ensures
        modulus(a.power(m)) == 1real,
    decreases m,
{
    lemma_units(1real);
    lemma_units(0real);
    if m > 0 {
        lemma_power_on_circle(a, (m - 1) as nat);
        lemma_modulus_of_product(a.power((m - 1) as nat), a);
    }
}

} // verus!
