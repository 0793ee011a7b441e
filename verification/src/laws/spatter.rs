//! Laws of the binary spatter code.

use vstd::prelude::*;

use crate::laws::counting::lemma_count_disjoint;
use crate::model::{majority, mismatches, permuted, xor_bits};

verus! {

/// Binding is commutative.
pub proof fn bind_commutes(a: Seq<bool>, b: Seq<bool>)
    requires
        a.len() == b.len(),
    ensures
        xor_bits(a, b) == xor_bits(b, a),
{
    assert(xor_bits(a, b) =~= xor_bits(b, a));
}

/// Binding is associative.
pub proof fn bind_associates(a: Seq<bool>, b: Seq<bool>, c: Seq<bool>)
    requires
        a.len() == b.len() == c.len(),
    ensures
        xor_bits(xor_bits(a, b), c) == xor_bits(a, xor_bits(b, c)),
{
    assert(xor_bits(xor_bits(a, b), c) =~= xor_bits(a, xor_bits(b, c)));
}

/// Every vector is its own inverse: binding it a second time undoes the first.
pub proof fn bind_undone(a: Seq<bool>, b: Seq<bool>)
    requires
        a.len() == b.len(),
    ensures
        xor_bits(xor_bits(a, b), b) == a,
{
    assert(xor_bits(xor_bits(a, b), b) =~= a);
}

/// The vector without a set bit is neutral, and is what a vector bound with itself gives.
pub proof fn bind_neutral(a: Seq<bool>)
    ensures
        xor_bits(a, Seq::new(a.len(), |i: int| false)) == a,
        xor_bits(a, a) == Seq::new(a.len(), |i: int| false),
{
    assert(xor_bits(a, Seq::new(a.len(), |i: int| false)) =~= a);
    assert(xor_bits(a, a) =~= Seq::new(a.len(), |i: int| false));
}

/// Binding both vectors with a third keeps the number of mismatches.
pub proof fn bind_keeps_mismatches(a: Seq<bool>, b: Seq<bool>, c: Seq<bool>)
    requires
        a.len() == b.len() == c.len(),
    ensures
        mismatches(xor_bits(a, c), xor_bits(b, c)) == mismatches(a, b),
{
    assert(xor_bits(xor_bits(a, c), xor_bits(b, c)) =~= xor_bits(a, b));
}

/// Permuting distributes over binding.
pub proof fn permute_distributes_over_bind(a: Seq<bool>, b: Seq<bool>, shifts: nat)
    requires
        a.len() == b.len(),
    ensures
        permuted(xor_bits(a, b), shifts) == xor_bits(permuted(a, shifts), permuted(b, shifts)),
{
    assert(permuted(xor_bits(a, b), shifts) =~= xor_bits(
        permuted(a, shifts),
        permuted(b, shifts),
    ));
}

/// The bits on which the two vectors agree stay, whatever the tiebreaker; every other bit is one
/// of the two.
pub proof fn bundle_keeps_agreement(a: Seq<bool>, b: Seq<bool>, tiebreaker: Seq<bool>, i: int)
    requires
        a.len() == b.len(),
        0 <= i < a.len(),
    ensures
        majority(a, b, tiebreaker).len() == a.len(),
        a[i] == b[i] ==> majority(a, b, tiebreaker)[i] == a[i],
        majority(a, b, tiebreaker)[i] == a[i] || majority(a, b, tiebreaker)[i] == b[i],
{
}

/// Bundling a vector with itself gives that vector, whatever the tiebreaker.
pub proof fn bundle_with_itself(a: Seq<bool>, tiebreaker: Seq<bool>)
    ensures
        majority(a, a, tiebreaker) == a,
{
    assert(majority(a, a, tiebreaker) =~= a);
}

/// With the same tiebreaker, bundling is commutative.
pub proof fn bundle_commutes(a: Seq<bool>, b: Seq<bool>, tiebreaker: Seq<bool>)
    requires
        a.len() == b.len(),
    ensures
        majority(a, b, tiebreaker) == majority(b, a, tiebreaker),
{
    assert(majority(a, b, tiebreaker) =~= majority(b, a, tiebreaker));
}

/// A bundle lies between the two vectors: its mismatches with the one and with the other add up
/// to theirs.
pub proof fn bundle_lies_between(a: Seq<bool>, b: Seq<bool>, tiebreaker: Seq<bool>)
    requires
        a.len() == b.len(),
    ensures
        mismatches(a, majority(a, b, tiebreaker)) + mismatches(majority(a, b, tiebreaker), b)
            == mismatches(a, b),
{
    let bundled = majority(a, b, tiebreaker);
    lemma_count_disjoint(xor_bits(a, bundled), xor_bits(bundled, b), xor_bits(a, b));
}

/// Binding distributes over bundling, when the tiebreaker is bound as well.
pub proof fn bind_distributes_over_bundle(
    a: Seq<bool>,
    b: Seq<bool>,
    tiebreaker: Seq<bool>,
    c: Seq<bool>,
)
    requires
        a.len() == b.len() == tiebreaker.len() == c.len(),
    ensures
        xor_bits(majority(a, b, tiebreaker), c) == majority(
            xor_bits(a, c),
            xor_bits(b, c),
            xor_bits(tiebreaker, c),
        ),
{
    assert(xor_bits(majority(a, b, tiebreaker), c) =~= majority(
        xor_bits(a, c),
        xor_bits(b, c),
        xor_bits(tiebreaker, c),
    ));
}

/// Permuting distributes over bundling, when the tiebreaker is permuted as well.
pub proof fn permute_distributes_over_bundle(
    a: Seq<bool>,
    b: Seq<bool>,
    tiebreaker: Seq<bool>,
    shifts: nat,
)
    requires
        a.len() == b.len() == tiebreaker.len(),
    ensures
        permuted(majority(a, b, tiebreaker), shifts) == majority(
            permuted(a, shifts),
            permuted(b, shifts),
            permuted(tiebreaker, shifts),
        ),
{
    assert(permuted(majority(a, b, tiebreaker), shifts) =~= majority(
        permuted(a, shifts),
        permuted(b, shifts),
        permuted(tiebreaker, shifts),
    ));
}

/// Where the two vectors differ, the bundle holds the bit of the tiebreaker.
pub proof fn bundle_breaks_ties(a: Seq<bool>, b: Seq<bool>, tiebreaker: Seq<bool>, i: int)
    requires
        a.len() == b.len() == tiebreaker.len(),
        0 <= i < a.len(),
    ensures
        a[i] != b[i] ==> majority(a, b, tiebreaker)[i] == tiebreaker[i],
        a[i] == b[i] ==> majority(a, b, tiebreaker)[i] == a[i],
{
}

/// A bit of a binding is set where the two bits differ.
pub proof fn bind_compares(a: Seq<bool>, b: Seq<bool>, i: int)
    requires
        a.len() == b.len(),
        0 <= i < a.len(),
    ensures
        xor_bits(a, b).len() == a.len(),
        xor_bits(a, b)[i] <==> a[i] != b[i],
{
}

} // verus!
