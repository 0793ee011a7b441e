//! Laws of similarities that hold to the last digit: where every floating-point operation has one
//! result for the same operands, so has a similarity.

use vstd::prelude::*;

use crate::arithmetic::{accumulated, agreement, agreement_steps, conversion, converted};
use crate::arithmetic::{euclidean_norm, norm_steps, partial_sums, products, quotient};
use crate::arithmetic::quotient_steps;
use crate::holographic::{cosine, cosine_steps};
use crate::laws::counting::{mismatches_of_equal, mismatches_of_permuted, mismatches_symmetric};
use crate::laws::multiply_add_permute;
use crate::laws::spatter;
use crate::model::{mismatches, permuted, xnor_bits, xor_bits};
use crate::multiply_add_permute::{integer_cosine, integer_cosine_steps};
use crate::resolution::{FloatResolution, IntResolution};
use crate::storage::combinable;

verus! {

/// Every operation has one result for the same operands. This leaves open how results are
/// rounded.
pub open spec fn deterministic<F: FloatResolution>() -> bool {
    &&& forall|r: F, s: F| #[trigger]
        call_ensures(F::zero, (), r) && #[trigger] call_ensures(F::zero, (), s) ==> r == s
    &&& forall|n: usize, r: F, s: F| #[trigger]
        call_ensures(F::from_count, (n,), r) && #[trigger] call_ensures(F::from_count, (n,), s)
            ==> r == s
    &&& forall|n: i128, r: F, s: F| #[trigger]
        call_ensures(F::from_integer, (n,), r) && #[trigger] call_ensures(F::from_integer, (n,), s)
            ==> r == s
    &&& forall|x: F, y: F, r: F, s: F| #[trigger]
        call_ensures(F::plus, (x, y), r) && #[trigger] call_ensures(F::plus, (x, y), s) ==> r == s
    &&& forall|x: F, y: F, r: F, s: F| #[trigger]
        call_ensures(F::minus, (x, y), r) && #[trigger] call_ensures(F::minus, (x, y), s) ==> r == s
    &&& forall|x: F, y: F, r: F, s: F| #[trigger]
        call_ensures(F::times, (x, y), r) && #[trigger] call_ensures(F::times, (x, y), s) ==> r == s
    &&& forall|x: F, y: F, r: F, s: F| #[trigger]
        call_ensures(F::over, (x, y), r) && #[trigger] call_ensures(F::over, (x, y), s) ==> r == s
    &&& forall|x: F, r: F, s: F| #[trigger]
        call_ensures(F::squared, (x,), r) && #[trigger] call_ensures(F::squared, (x,), s) ==> r == s
    &&& forall|x: F, r: F, s: F| #[trigger]
        call_ensures(F::square_root, (x,), r) && #[trigger] call_ensures(F::square_root, (x,), s)
            ==> r == s
    &&& forall|x: Vec<F>, y: Vec<F>, r: F, s: F|
        x@ == y@ && #[trigger] call_ensures(F::total, (&x,), r) && #[trigger] call_ensures(
            F::total,
            (&y,),
            s,
        ) ==> r == s
    &&& forall|x: F, y: F, r: bool, s: bool| #[trigger]
        call_ensures(F::equals, (x, y), r) && #[trigger] call_ensures(F::equals, (x, y), s)
            ==> r == s
}

/// The size and the number of mismatches determine the similarity. In particular
/// `similarity_unnormalized` gives what `similarity` gives.
pub proof fn agreement_determined<F: FloatResolution>(size: nat, count: nat, r: F, s: F)
    requires
        deterministic::<F>(),
        agreement(size, count, r),
        agreement(size, count, s),
    ensures
        r == s,
{
    let (dim, wrong, two, twice, dot) = choose|
        dim: F,
        wrong: F,
        two: F,
        twice: F,
        dot: F,
    | #[trigger]
        agreement_steps(size, count, dim, wrong, two, twice, dot, r);
    let (dim2, wrong2, two2, twice2, dot2) = choose|
        dim: F,
        wrong: F,
        two: F,
        twice: F,
        dot: F,
    | #[trigger]
        agreement_steps(size, count, dim, wrong, two, twice, dot, s);
    assert(dim == dim2 && wrong == wrong2 && two == two2);
    assert(twice == twice2);
    assert(dot == dot2);
}

/// The similarity of bit vectors does not depend on their order.
pub proof fn similarity_symmetric<F: FloatResolution>(a: Seq<bool>, b: Seq<bool>, r: F, s: F)
    requires
        combinable(a.len(), b.len()),
        deterministic::<F>(),
        agreement(a.len(), mismatches(a, b), r),
        agreement(b.len(), mismatches(b, a), s),
    ensures
        r == s,
{
    mismatches_symmetric(a, b);
    agreement_determined(a.len(), mismatches(a, b), r, s);
}

/// Permuting both bit vectors alike keeps their similarity.
pub proof fn similarity_kept_by_permute<F: FloatResolution>(
    a: Seq<bool>,
    b: Seq<bool>,
    shifts: nat,
    r: F,
    s: F,
)
    requires
        combinable(a.len(), b.len()),
        deterministic::<F>(),
        agreement(a.len(), mismatches(a, b), r),
        agreement(
            permuted(a, shifts).len(),
            mismatches(permuted(a, shifts), permuted(b, shifts)),
            s,
        ),
    ensures
        r == s,
{
    mismatches_of_permuted(a, b, shifts);
    assert(permuted(a, shifts).len() == a.len());
    agreement_determined(a.len(), mismatches(a, b), r, s);
}

/// Binding both spatter codes with a third keeps their similarity.
pub proof fn similarity_kept_by_spatter_bind<F: FloatResolution>(
    a: Seq<bool>,
    b: Seq<bool>,
    c: Seq<bool>,
    r: F,
    s: F,
)
    requires
        combinable(a.len(), b.len()),
        combinable(b.len(), c.len()),
        deterministic::<F>(),
        agreement(a.len(), mismatches(a, b), r),
        agreement(xor_bits(a, c).len(), mismatches(xor_bits(a, c), xor_bits(b, c)), s),
    ensures
        r == s,
{
    spatter::bind_keeps_mismatches(a, b, c);
    agreement_determined(a.len(), mismatches(a, b), r, s);
}

/// Binding both sign vectors with a third keeps their similarity.
pub proof fn similarity_kept_by_sign_bind<F: FloatResolution>(
    a: Seq<bool>,
    b: Seq<bool>,
    c: Seq<bool>,
    r: F,
    s: F,
)
    requires
        combinable(a.len(), b.len()),
        combinable(b.len(), c.len()),
        deterministic::<F>(),
        agreement(a.len(), mismatches(a, b), r),
        agreement(xnor_bits(a, c).len(), mismatches(xnor_bits(a, c), xnor_bits(b, c)), s),
    ensures
        r == s,
{
    multiply_add_permute::bind_keeps_mismatches(a, b, c);
    agreement_determined(a.len(), mismatches(a, b), r, s);
}

proof fn lemma_norm_determined<F: FloatResolution>(values: Seq<F>, r: F, s: F)
    requires
        deterministic::<F>(),
        euclidean_norm(values, r),
        euclidean_norm(values, s),
    ensures
        r == s,
{
    let (x, sum) = choose|x: Vec<F>, sum: F| #[trigger] norm_steps(values, x, sum, r);
    let (y, other) = choose|y: Vec<F>, other: F| #[trigger] norm_steps(values, y, other, s);
    assert forall|i: int| 0 <= i < values.len() implies #[trigger] x@[i] == y@[i] by {
        assert(call_ensures(F::squared, (values[i],), x@[i]));
        assert(call_ensures(F::squared, (values[i],), y@[i]));
    }
    assert(x@ =~= y@);
    assert(sum == other);
}

proof fn lemma_products_determined<F: FloatResolution>(
    xs: Seq<F>,
    ys: Seq<F>,
    p: Seq<F>,
    q: Seq<F>,
)
    requires
        deterministic::<F>(),
        products(xs, ys, p),
        products(xs, ys, q),
    ensures
        p == q,
{
    assert forall|i: int| 0 <= i < p.len() implies #[trigger] p[i] == q[i] by {
        assert(call_ensures(F::times, (xs[i], ys[i]), p[i]));
        assert(call_ensures(F::times, (xs[i], ys[i]), q[i]));
    }
    assert(p =~= q);
}

proof fn lemma_quotient_determined<F: FloatResolution>(dot: F, magnitude: F, r: F, s: F)
    requires
        deterministic::<F>(),
        quotient(dot, magnitude, r),
        quotient(dot, magnitude, s),
    ensures
        r == s,
{
    let (zero, flat) = choose|zero: F, flat: bool| #[trigger]
        quotient_steps(dot, magnitude, zero, flat, r);
    let (zero2, flat2) = choose|zero: F, flat: bool| #[trigger]
        quotient_steps(dot, magnitude, zero, flat, s);
    assert(zero == zero2);
    assert(flat == flat2);
}

/// Two holographic vectors determine their similarity. In particular `similarity_unnormalized`
/// gives what `similarity` gives.
pub proof fn cosine_determined<R: FloatResolution>(a: Seq<R>, b: Seq<R>, r: R, s: R)
    requires
        deterministic::<R>(),
        cosine(a, b, r),
        cosine(a, b, s),
    ensures
        r == s,
{
    let (terms, dot, left, right, magnitude) = choose|
        terms: Vec<R>,
        dot: R,
        left: R,
        right: R,
        magnitude: R,
    | #[trigger]
        cosine_steps(a, b, terms, dot, left, right, magnitude, r);
    let (terms2, dot2, left2, right2, magnitude2) = choose|
        terms: Vec<R>,
        dot: R,
        left: R,
        right: R,
        magnitude: R,
    | #[trigger]
        cosine_steps(a, b, terms, dot, left, right, magnitude, s);
    lemma_products_determined(a, b, terms@, terms2@);
    lemma_norm_determined(a, left, left2);
    lemma_norm_determined(b, right, right2);
    assert(dot == dot2);
    assert(magnitude == magnitude2);
    lemma_quotient_determined(dot, magnitude, r, s);
}

proof fn lemma_sum_determined<F: FloatResolution>(terms: Seq<F>, r: F, s: F)
    requires
        deterministic::<F>(),
        accumulated(terms, r),
        accumulated(terms, s),
    ensures
        r == s,
{
    let p = choose|p: Seq<F>| #[trigger] partial_sums(terms, p) && p.last() == r;
    let q = choose|q: Seq<F>| #[trigger] partial_sums(terms, q) && q.last() == s;
    lemma_partial_sums_determined(terms, p, q, terms.len());
}

proof fn lemma_partial_sums_determined<F: FloatResolution>(
    terms: Seq<F>,
    p: Seq<F>,
    q: Seq<F>,
    count: nat,
)
    requires
        deterministic::<F>(),
        partial_sums(terms, p),
        partial_sums(terms, q),
        count <= terms.len(),
    ensures
        p[count as int] == q[count as int],
    decreases count,
{
    if count > 0 {
        let k = count - 1;
        lemma_partial_sums_determined(terms, p, q, k as nat);
        assert(call_ensures(F::plus, (p[k], terms[k]), p[k + 1]));
        assert(call_ensures(F::plus, (q[k], terms[k]), q[k + 1]));
    }
}

proof fn lemma_conversion_determined<RM: IntResolution, F: FloatResolution>(
    values: Seq<RM>,
    xs: Seq<F>,
    ys: Seq<F>,
)
    requires
        deterministic::<F>(),
        converted(values, xs),
        converted(values, ys),
    ensures
        xs == ys,
{
    assert forall|i: int| 0 <= i < xs.len() implies #[trigger] xs[i] == ys[i] by {
        assert(conversion(values[i], xs[i]));
        assert(conversion(values[i], ys[i]));
    }
    assert(xs =~= ys);
}

/// Two accumulators determine their similarity.
pub proof fn integer_cosine_determined<RM: IntResolution, F: FloatResolution>(
    a: Seq<RM>,
    b: Seq<RM>,
    r: F,
    s: F,
)
    requires
        deterministic::<F>(),
        integer_cosine(a, b, r),
        integer_cosine(a, b, s),
    ensures
        r == s,
{
    let (xs, ys, mixed, left, right, dot, norm_a, norm_b, root_a, root_b, magnitude) = choose|
        xs: Seq<F>,
        ys: Seq<F>,
        mixed: Seq<F>,
        left: Seq<F>,
        right: Seq<F>,
        dot: F,
        norm_a: F,
        norm_b: F,
        root_a: F,
        root_b: F,
        magnitude: F,
    | #[trigger]
        integer_cosine_steps(
            a, b, xs, ys, mixed, left, right, dot, norm_a, norm_b, root_a, root_b, magnitude, r,
        );
    let (xs2, ys2, mixed2, left2, right2, dot2, norm_a2, norm_b2, root_a2, root_b2, magnitude2) =
        choose|
        xs: Seq<F>,
        ys: Seq<F>,
        mixed: Seq<F>,
        left: Seq<F>,
        right: Seq<F>,
        dot: F,
        norm_a: F,
        norm_b: F,
        root_a: F,
        root_b: F,
        magnitude: F,
    | #[trigger]
        integer_cosine_steps(
            a, b, xs, ys, mixed, left, right, dot, norm_a, norm_b, root_a, root_b, magnitude, s,
        );
    lemma_conversion_determined(a, xs, xs2);
    lemma_conversion_determined(b, ys, ys2);
    lemma_products_determined(xs, ys, mixed, mixed2);
    lemma_products_determined(xs, xs, left, left2);
    lemma_products_determined(ys, ys, right, right2);
    lemma_sum_determined(mixed, dot, dot2);
    lemma_sum_determined(left, norm_a, norm_a2);
    lemma_sum_determined(right, norm_b, norm_b2);
    assert(root_a == root_a2 && root_b == root_b2);
    assert(magnitude == magnitude2);
    lemma_quotient_determined(dot, magnitude, r, s);
}

/// Multiplication does not depend on the order of its operands.
pub open spec fn commutative<F: FloatResolution>() -> bool {
    forall|x: F, y: F, r: F| #[trigger]
        call_ensures(F::times, (x, y), r) ==> call_ensures(F::times, (y, x), r)
}

proof fn lemma_products_commute<F: FloatResolution>(xs: Seq<F>, ys: Seq<F>, p: Seq<F>)
    requires
        commutative::<F>(),
        products(xs, ys, p),
    ensures
        products(ys, xs, p),
{
    assert forall|i: int| 0 <= i < p.len() implies call_ensures(
        F::times,
        (ys[i], xs[i]),
        #[trigger] p[i],
    ) by {
        assert(call_ensures(F::times, (xs[i], ys[i]), p[i]));
    }
}

/// The similarity of holographic vectors does not depend on their order.
pub proof fn cosine_symmetric<R: FloatResolution>(a: Seq<R>, b: Seq<R>, r: R, s: R)
    requires
        combinable(a.len(), b.len()),
        deterministic::<R>(),
        commutative::<R>(),
        cosine(a, b, r),
        cosine(b, a, s),
    ensures
        r == s,
{
    let (terms, dot, left, right, magnitude) = choose|
        terms: Vec<R>,
        dot: R,
        left: R,
        right: R,
        magnitude: R,
    | #[trigger]
        cosine_steps(a, b, terms, dot, left, right, magnitude, r);
    lemma_products_commute(a, b, terms@);
    assert(cosine_steps(b, a, terms, dot, right, left, magnitude, r));
    cosine_determined(b, a, r, s);
}

/// The similarity of accumulators does not depend on their order.
pub proof fn integer_cosine_symmetric<RM: IntResolution, F: FloatResolution>(
    a: Seq<RM>,
    b: Seq<RM>,
    r: F,
    s: F,
)
    requires
        combinable(a.len(), b.len()),
        deterministic::<F>(),
        commutative::<F>(),
        integer_cosine(a, b, r),
        integer_cosine(b, a, s),
    ensures
        r == s,
{
    let (xs, ys, mixed, left, right, dot, norm_a, norm_b, root_a, root_b, magnitude) = choose|
        xs: Seq<F>,
        ys: Seq<F>,
        mixed: Seq<F>,
        left: Seq<F>,
        right: Seq<F>,
        dot: F,
        norm_a: F,
        norm_b: F,
        root_a: F,
        root_b: F,
        magnitude: F,
    | #[trigger]
        integer_cosine_steps(
            a, b, xs, ys, mixed, left, right, dot, norm_a, norm_b, root_a, root_b, magnitude, r,
        );
    lemma_products_commute(xs, ys, mixed);
    assert(integer_cosine_steps(
        b, a, ys, xs, mixed, right, left, dot, norm_b, norm_a, root_b, root_a, magnitude, r,
    ));
    integer_cosine_determined(b, a, r, s);
}

/// A number less a multiple of the count zero is that number.
pub open spec fn absorbs_zero<F: FloatResolution>() -> bool {
    forall|zero: F, x: F, multiple: F, y: F, r: F| #[trigger]
        call_ensures(F::from_count, (0usize,), zero) && #[trigger] call_ensures(
            F::times,
            (x, zero),
            multiple,
        ) && #[trigger] call_ensures(F::minus, (y, multiple), r) ==> r == y
}

/// The similarity of a bit vector with itself is what dividing its size by itself gives, whatever
/// the size.
pub proof fn similarity_with_itself<F: FloatResolution>(a: Seq<bool>, result: F) -> (size: F)
    requires
        a.len() > 0,
        absorbs_zero::<F>(),
        agreement(a.len(), mismatches(a, a), result),
    ensures
        a.len() <= usize::MAX,
        call_ensures(F::from_count, (a.len() as usize,), size),
        call_ensures(F::over, (size, size), result),
{
    mismatches_of_equal(a, a);
    let (dim, wrong, two, twice, dot) = choose|
        dim: F,
        wrong: F,
        two: F,
        twice: F,
        dot: F,
    | #[trigger]
        agreement_steps(a.len(), 0, dim, wrong, two, twice, dot, result);
    assert(dot == dim);
    dim
}

} // verus!
