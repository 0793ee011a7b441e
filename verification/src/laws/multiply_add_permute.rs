//! Laws of multiply-add-permute.

use vstd::prelude::*;

use crate::laws::counting::lemma_count_append;
use crate::model::{count_true, mismatches, permuted, sign, sign_products, signs, signs_of, sums};
use crate::model::{xnor_bits, xor_bits};
use crate::multiply_add_permute::integers;
use crate::resolution::IntResolution;

verus! {

/// The sum of the products of the integers at the same position.
pub open spec fn dot_product(a: Seq<int>, b: Seq<int>) -> int
    decreases a.len(),
{
    if a.len() == 0 {
        0
    } else {
        dot_product(a.drop_last(), b.drop_last()) + a.last() * b.last()
    }
}

/// Binding multiplies the signs.
pub proof fn bind_multiplies(a: Seq<bool>, b: Seq<bool>)
    requires
        a.len() == b.len(),
    ensures
        signs(xnor_bits(a, b)) == Seq::new(a.len(), |i: int| sign(a[i]) * sign(b[i])),
{
    assert(signs(xnor_bits(a, b)) =~= Seq::new(a.len(), |i: int| sign(a[i]) * sign(b[i])));
}

/// Binding is commutative.
pub proof fn bind_commutes(a: Seq<bool>, b: Seq<bool>)
    requires
        a.len() == b.len(),
    ensures
        xnor_bits(a, b) == xnor_bits(b, a),
{
    assert(xnor_bits(a, b) =~= xnor_bits(b, a));
}

/// Binding is associative.
pub proof fn bind_associates(a: Seq<bool>, b: Seq<bool>, c: Seq<bool>)
    requires
        a.len() == b.len() == c.len(),
    ensures
        xnor_bits(xnor_bits(a, b), c) == xnor_bits(a, xnor_bits(b, c)),
{
    assert(xnor_bits(xnor_bits(a, b), c) =~= xnor_bits(a, xnor_bits(b, c)));
}

/// Every vector is its own inverse: binding it a second time undoes the first.
pub proof fn bind_undone(a: Seq<bool>, b: Seq<bool>)
    requires
        a.len() == b.len(),
    ensures
        xnor_bits(xnor_bits(a, b), b) == a,
{
    assert(xnor_bits(xnor_bits(a, b), b) =~= a);
}

/// The vector of nothing but +1 is neutral, and is what a vector bound with itself gives.
pub proof fn bind_neutral(a: Seq<bool>)
    ensures
        xnor_bits(a, Seq::new(a.len(), |i: int| true)) == a,
        xnor_bits(a, a) == Seq::new(a.len(), |i: int| true),
{
    assert(xnor_bits(a, Seq::new(a.len(), |i: int| true)) =~= a);
    assert(xnor_bits(a, a) =~= Seq::new(a.len(), |i: int| true));
}

/// Binding both vectors with a third keeps the number of mismatches.
pub proof fn bind_keeps_mismatches(a: Seq<bool>, b: Seq<bool>, c: Seq<bool>)
    requires
        a.len() == b.len() == c.len(),
    ensures
        mismatches(xnor_bits(a, c), xnor_bits(b, c)) == mismatches(a, b),
{
    assert(xor_bits(xnor_bits(a, c), xnor_bits(b, c)) =~= xor_bits(a, b));
}

/// Permuting distributes over binding.
pub proof fn permute_distributes_over_bind(a: Seq<bool>, b: Seq<bool>, shifts: nat)
    requires
        a.len() == b.len(),
    ensures
        permuted(xnor_bits(a, b), shifts) == xnor_bits(permuted(a, shifts), permuted(b, shifts)),
{
    assert(permuted(xnor_bits(a, b), shifts) =~= xnor_bits(
        permuted(a, shifts),
        permuted(b, shifts),
    ));
}

/// Normalizing gives back what was denormalized.
pub proof fn normalize_undoes_denormalize(a: Seq<bool>)
    ensures
        signs_of(signs(a)) == a,
{
    assert(signs_of(signs(a)) =~= a);
}

/// Normalizing forgets the magnitudes: only the signs count, and zero counts as +1.
pub proof fn normalize_keeps_signs(a: Seq<int>, i: int)
    requires
        0 <= i < a.len(),
    ensures
        signs_of(a).len() == a.len(),
        a[i] > 0 ==> signs(signs_of(a))[i] == 1,
        a[i] == 0 ==> signs(signs_of(a))[i] == 1,
        a[i] < 0 ==> signs(signs_of(a))[i] == -1,
{
}

/// Binding an accumulator does to denormalized vectors what binding does to the vectors.
pub proof fn accumulator_binding_agrees(a: Seq<bool>, b: Seq<bool>)
    requires
        a.len() == b.len(),
    ensures
        sign_products(signs(a), b) == signs(xnor_bits(a, b)),
{
    assert(sign_products(signs(a), b) =~= signs(xnor_bits(a, b)));
}

/// Binding an accumulator a second time undoes the first.
pub proof fn accumulator_binding_undone(a: Seq<int>, b: Seq<bool>)
    requires
        a.len() == b.len(),
    ensures
        sign_products(sign_products(a, b), b) == a,
{
    assert forall|i: int| 0 <= i < a.len() implies sign_products(sign_products(a, b), b)[i]
        == a[i] by {
        if b[i] {
            assert(sign_products(a, b)[i] == a[i] * 1);
        } else {
            assert(sign_products(a, b)[i] == a[i] * -1);
        }
    }
    assert(sign_products(sign_products(a, b), b) =~= a);
}

/// Binding distributes over bundling.
pub proof fn binding_distributes_over_bundling(a: Seq<int>, b: Seq<int>, c: Seq<bool>)
    requires
        a.len() == b.len() == c.len(),
    ensures
        sign_products(sums(a, b), c) == sums(sign_products(a, c), sign_products(b, c)),
{
    assert forall|i: int| 0 <= i < a.len() implies sign_products(sums(a, b), c)[i] == sums(
        sign_products(a, c),
        sign_products(b, c),
    )[i] by {
        if c[i] {
            assert(sign_products(sums(a, b), c)[i] == (a[i] + b[i]) * 1);
        } else {
            assert(sign_products(sums(a, b), c)[i] == (a[i] + b[i]) * -1);
        }
    }
    assert(sign_products(sums(a, b), c) =~= sums(sign_products(a, c), sign_products(b, c)));
}

/// Bundling is commutative.
pub proof fn bundling_commutes(a: Seq<int>, b: Seq<int>)
    requires
        a.len() == b.len(),
    ensures
        sums(a, b) == sums(b, a),
{
    assert(sums(a, b) =~= sums(b, a));
}

/// The order in which vectors are bundled into an accumulator does not matter.
pub proof fn bundling_order(a: Seq<int>, b: Seq<int>, c: Seq<int>)
    ensures
        sums(sums(a, b), c) == sums(sums(a, c), b),
{
    assert(sums(sums(a, b), c) =~= sums(sums(a, c), b));
}

/// Bundling into an accumulator what was bundled before is bundling one by one.
pub proof fn bundling_associates(a: Seq<int>, b: Seq<int>, c: Seq<int>)
    requires
        b.len() >= c.len(),
    ensures
        sums(a, sums(b, c)) == sums(sums(a, b), c),
{
    assert(sums(a, sums(b, c)) =~= sums(sums(a, b), c));
}

/// What a similarity is computed from: the dot product of two vectors of signs is their length,
/// less two for each mismatch.
pub proof fn dot_product_of_signs(a: Seq<bool>, b: Seq<bool>)
    requires
        a.len() == b.len(),
    ensures
        dot_product(signs(a), signs(b)) == a.len() - 2 * mismatches(a, b),
    decreases a.len(),
{
    if a.len() > 0 {
        dot_product_of_signs(a.drop_last(), b.drop_last());
        assert(signs(a).drop_last() =~= signs(a.drop_last()));
        assert(signs(b).drop_last() =~= signs(b.drop_last()));
        assert(xor_bits(a, b).drop_last() =~= xor_bits(a.drop_last(), b.drop_last()));
    }
}

/// The dot product of signs with themselves is their length: the two norms multiply to it, so
/// that the quotient is a cosine.
pub proof fn dot_product_with_itself(a: Seq<bool>)
    ensures
        dot_product(signs(a), signs(a)) == a.len(),
{
    dot_product_of_signs(a, a);
    crate::laws::counting::mismatches_of_equal(a, a);
}

/// The accumulator that comes of denormalizing the first of the vectors and bundling the others
/// into it, one after the other.
pub open spec fn bundled(vectors: Seq<Seq<bool>>) -> Seq<int>
    decreases vectors.len(),
{
    if vectors.len() <= 1 {
        signs(vectors[0])
    } else {
        sums(bundled(vectors.drop_last()), signs(vectors.last()))
    }
}

/// What each of the vectors holds at position `i`.
pub open spec fn votes(vectors: Seq<Seq<bool>>, i: int) -> Seq<bool> {
    vectors.map_values(|vector: Seq<bool>| vector[i])
}

/// A bundle holds the votes for +1 less those for -1.
proof fn lemma_bundled(vectors: Seq<Seq<bool>>, n: nat, i: int)
    requires
        vectors.len() > 0,
        forall|k: int| 0 <= k < vectors.len() ==> (#[trigger] vectors[k]).len() == n,
        0 <= i < n,
    ensures
        bundled(vectors).len() == n,
        bundled(vectors)[i] == 2 * count_true(votes(vectors, i)) - vectors.len(),
    decreases vectors.len(),
{
    let ballot = votes(vectors, i);
    let rest = votes(vectors.drop_last(), i);
    assert(ballot.drop_last() =~= rest);
    assert(vectors.last().len() == n);
    if vectors.len() == 1 {
        assert(rest.len() == 0);
    } else {
        lemma_bundled(vectors.drop_last(), n, i);
    }
}

/// Normalizing a bundle of vectors gives their majority, element by element: +1 where at least
/// half of them hold +1, -1 elsewhere.
pub proof fn normalized_bundle_is_majority(vectors: Seq<Seq<bool>>, n: nat)
    requires
        vectors.len() > 0,
        forall|k: int| 0 <= k < vectors.len() ==> (#[trigger] vectors[k]).len() == n,
    ensures
        signs_of(bundled(vectors)) == Seq::new(
            n,
            |i: int| 2 * count_true(votes(vectors, i)) >= vectors.len(),
        ),
{
    assert forall|i: int| 0 <= i < n implies #[trigger] signs_of(bundled(vectors))[i] == (2
        * count_true(votes(vectors, i)) >= vectors.len()) by {
        lemma_bundled(vectors, n, i);
    }
    lemma_bundled_len(vectors, n);
    assert(signs_of(bundled(vectors)) =~= Seq::new(
        n,
        |i: int| 2 * count_true(votes(vectors, i)) >= vectors.len(),
    ));
}

proof fn lemma_bundled_len(vectors: Seq<Seq<bool>>, n: nat)
    requires
        vectors.len() > 0,
        forall|k: int| 0 <= k < vectors.len() ==> (#[trigger] vectors[k]).len() == n,
    ensures
        bundled(vectors).len() == n,
    decreases vectors.len(),
{
    assert(vectors[0].len() == n);
    if vectors.len() > 1 {
        lemma_bundled_len(vectors.drop_last(), n);
    }
}

/// Vectors in another order give the same votes.
proof fn lemma_votes_in_any_order(vectors: Seq<Seq<bool>>, others: Seq<Seq<bool>>, i: int)
    requires
        vectors.to_multiset() == others.to_multiset(),
    ensures
        count_true(votes(vectors, i)) == count_true(votes(others, i)),
        vectors.len() == others.len(),
    decreases vectors.len(),
{
    broadcast use vstd::seq_lib::group_to_multiset_ensures;

    assert(vectors.len() == vectors.to_multiset().len());
    assert(others.len() == others.to_multiset().len());
    if vectors.len() > 0 {
        let last = vectors.len() - 1;
        let vector = vectors.last();
        assert(vectors.contains(vector));
        assert(others.to_multiset().count(vector) > 0);
        assert(others.contains(vector));
        let at = choose|at: int| 0 <= at < others.len() && others[at] == vector;
        assert(vectors.remove(last) =~= vectors.drop_last());
        lemma_votes_in_any_order(vectors.drop_last(), others.remove(at), i);
        let (before, after) = (votes(others.take(at), i), votes(others.skip(at + 1), i));
        assert(votes(vectors, i).drop_last() =~= votes(vectors.drop_last(), i));
        assert(votes(others.remove(at), i) =~= before + after);
        assert(votes(others, i) =~= before.push(vector[i]) + after);
        lemma_count_append(before, after);
        lemma_count_append(before.push(vector[i]), after);
        assert(before.push(vector[i]).drop_last() =~= before);
    }
}

/// The order in which any number of vectors are bundled does not matter.
pub proof fn bundle_in_any_order(vectors: Seq<Seq<bool>>, others: Seq<Seq<bool>>, n: nat)
    requires
        vectors.len() > 0,
        vectors.to_multiset() == others.to_multiset(),
        forall|k: int| 0 <= k < vectors.len() ==> (#[trigger] vectors[k]).len() == n,
    ensures
        bundled(vectors) == bundled(others),
{
    broadcast use vstd::seq_lib::group_to_multiset_ensures;

    lemma_votes_in_any_order(vectors, others, 0);
    assert forall|k: int| 0 <= k < others.len() implies (#[trigger] others[k]).len() == n by {
        assert(others.contains(others[k]));
        assert(vectors.to_multiset().count(others[k]) > 0);
        assert(vectors.contains(others[k]));
    }
    lemma_bundled_len(vectors, n);
    lemma_bundled_len(others, n);
    assert forall|i: int| 0 <= i < n implies #[trigger] bundled(vectors)[i] == bundled(
        others,
    )[i] by {
        lemma_bundled(vectors, n, i);
        lemma_bundled(others, n, i);
        lemma_votes_in_any_order(vectors, others, i);
    }
    assert(bundled(vectors) =~= bundled(others));
}

/// Denormalizing gives one for +1 and minus one for -1.
pub proof fn denormalize_gives_signs(a: Seq<bool>, i: int)
    requires
        0 <= i < a.len(),
    ensures
        signs(a).len() == a.len(),
        a[i] ==> signs(a)[i] == 1,
        !a[i] ==> signs(a)[i] == -1,
{
}

/// Bundling adds, component by component, and keeps what is past the end of the other.
pub proof fn bundling_adds(a: Seq<int>, b: Seq<int>, i: int)
    requires
        0 <= i < a.len(),
    ensures
        sums(a, b).len() == a.len(),
        i < b.len() ==> sums(a, b)[i] - a[i] == b[i],
        i >= b.len() ==> sums(a, b)[i] == a[i],
{
}

/// Binding an accumulator keeps every magnitude and changes the sign for which the vector is -1.
pub proof fn accumulator_binding_turns(a: Seq<int>, b: Seq<bool>, i: int)
    requires
        a.len() == b.len(),
        0 <= i < a.len(),
    ensures
        sign_products(a, b).len() == a.len(),
        b[i] ==> sign_products(a, b)[i] == a[i],
        !b[i] ==> sign_products(a, b)[i] + a[i] == 0,
{
    assert(a[i] * 1 == a[i] && a[i] * -1 == -a[i]);
}

/// The integers of an accumulator are those of its components, each at its place.
pub proof fn accumulator_holds_integers<RM: IntResolution>(values: Seq<RM>, i: int)
    requires
        0 <= i < values.len(),
    ensures
        integers(values).len() == values.len(),
        integers(values)[i] == values[i].as_int(),
{
}

} // verus!
