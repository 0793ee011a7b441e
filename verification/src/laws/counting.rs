//! Laws of the number of mismatches, which a similarity is computed from.

use vstd::prelude::*;

use crate::model::{count_true, mismatches, not_bits, permuted, rotated_right, xor_bits};

verus! {

/// The bits of two sequences in a row are those of either.
pub(crate) proof fn lemma_count_append(a: Seq<bool>, b: Seq<bool>)
    ensures
        count_true(a + b) == count_true(a) + count_true(b),
    decreases b.len(),
{
    if b.len() == 0 {
        assert(a + b =~= a);
    } else {
        assert((a + b).drop_last() =~= a + b.drop_last());
        lemma_count_append(a, b.drop_last());
    }
}

/// Where no two bits at the same position are both set, the set bits of `either` are those of
/// `a` and those of `b`.
pub(crate) proof fn lemma_count_disjoint(a: Seq<bool>, b: Seq<bool>, either: Seq<bool>)
    requires
        a.len() == b.len() == either.len(),
        forall|i: int| #![trigger a[i]]
            #![trigger either[i]]
            0 <= i < a.len() ==> either[i] == (a[i] || b[i]) && !(a[i] && b[i]),
    ensures
        count_true(either) == count_true(a) + count_true(b),
    decreases a.len(),
{
    if a.len() > 0 {
        let last = a.len() - 1;
        assert(either[last] == (a[last] || b[last]) && !(a[last] && b[last]));
        assert forall|i: int| 0 <= i < last implies either.drop_last()[i] == (a.drop_last()[i]
            || b.drop_last()[i]) && !(a.drop_last()[i] && b.drop_last()[i]) by {
            assert(either[i] == (a[i] || b[i]) && !(a[i] && b[i]));
        }
        lemma_count_disjoint(a.drop_last(), b.drop_last(), either.drop_last());
    }
}

/// A sequence without a set bit has the count zero, and no other.
pub(crate) proof fn lemma_count_zero(s: Seq<bool>)
    ensures
        count_true(s) == 0 <==> forall|i: int| 0 <= i < s.len() ==> !s[i],
    decreases s.len(),
{
    if s.len() > 0 {
        lemma_count_zero(s.drop_last());
        if count_true(s) == 0 {
            assert forall|i: int| 0 <= i < s.len() implies !s[i] by {
                if i < s.len() - 1 {
                    assert(!s.drop_last()[i]);
                }
            }
        } else if !s.last() {
            let i = choose|i: int| 0 <= i < s.drop_last().len() && s.drop_last()[i];
            assert(s[i]);
        }
    }
}

/// Permuting keeps the number of set bits.
pub(crate) proof fn lemma_count_permuted(s: Seq<bool>, shifts: nat)
    ensures
        count_true(permuted(s, shifts)) == count_true(s),
{
    if s.len() > 0 {
        let by = (shifts % s.len()) as int;
        let front = s.subrange(0, s.len() - by);
        let back = s.subrange(s.len() - by, s.len() as int);
        lemma_count_append(back, front);
        lemma_count_append(front, back);
        assert(front + back =~= s);
        assert(rotated_right(s, by) =~= back + front);
    }
}

/// The order of the two vectors does not matter.
pub proof fn mismatches_symmetric(a: Seq<bool>, b: Seq<bool>)
    requires
        a.len() == b.len(),
    ensures
        mismatches(a, b) == mismatches(b, a),
{
    assert(xor_bits(a, b) =~= xor_bits(b, a));
}

/// There are no more mismatches than positions.
pub proof fn mismatches_bounded(a: Seq<bool>, b: Seq<bool>)
    ensures
        mismatches(a, b) <= a.len(),
{
    crate::model::lemma_count_bound(xor_bits(a, b));
}

/// Equal vectors, and no others, have no mismatches: theirs is the highest similarity.
pub proof fn mismatches_of_equal(a: Seq<bool>, b: Seq<bool>)
    requires
        a.len() == b.len(),
    ensures
        mismatches(a, b) == 0 <==> a == b,
{
    lemma_count_zero(xor_bits(a, b));
    if mismatches(a, b) == 0 {
        assert forall|i: int| 0 <= i < a.len() implies a[i] == b[i] by {
            assert(!xor_bits(a, b)[i]);
        }
        assert(a =~= b);
    }
}

/// A vector mismatches another one wherever it does not mismatch the inverted one.
pub proof fn mismatches_of_inverted(a: Seq<bool>, b: Seq<bool>)
    requires
        a.len() == b.len(),
    ensures
        mismatches(a, b) + mismatches(a, not_bits(b)) == a.len(),
{
    let all = Seq::new(a.len(), |i: int| true);
    lemma_count_disjoint(xor_bits(a, b), xor_bits(a, not_bits(b)), all);
    lemma_count_all(a.len());
}

/// A sequence of set bits has as many of them as positions.
proof fn lemma_count_all(len: nat)
    ensures
        count_true(Seq::new(len, |i: int| true)) == len,
    decreases len,
{
    if len > 0 {
        lemma_count_all((len - 1) as nat);
        assert(Seq::new(len, |i: int| true).drop_last() =~= Seq::new(
            (len - 1) as nat,
            |i: int| true,
        ));
    }
}

/// Opposite vectors, and no others, mismatch everywhere: theirs is the lowest similarity.
pub proof fn mismatches_of_opposite(a: Seq<bool>, b: Seq<bool>)
    requires
        a.len() == b.len(),
    ensures
        mismatches(a, b) == a.len() <==> b == not_bits(a),
{
    mismatches_of_inverted(a, b);
    mismatches_of_equal(a, not_bits(b));
    assert(not_bits(not_bits(b)) =~= b);
    assert(not_bits(not_bits(a)) =~= a);
}

/// The mismatches obey the triangle inequality.
pub proof fn mismatches_triangle(a: Seq<bool>, b: Seq<bool>, c: Seq<bool>)
    requires
        a.len() == b.len() == c.len(),
    ensures
        mismatches(a, c) <= mismatches(a, b) + mismatches(b, c),
    decreases a.len(),
{
    if a.len() > 0 {
        mismatches_triangle(a.drop_last(), b.drop_last(), c.drop_last());
        assert(xor_bits(a, c).drop_last() =~= xor_bits(a.drop_last(), c.drop_last()));
        assert(xor_bits(a, b).drop_last() =~= xor_bits(a.drop_last(), b.drop_last()));
        assert(xor_bits(b, c).drop_last() =~= xor_bits(b.drop_last(), c.drop_last()));
    }
}

/// Permuting both vectors alike keeps the number of mismatches.
pub proof fn mismatches_of_permuted(a: Seq<bool>, b: Seq<bool>, shifts: nat)
    requires
        a.len() == b.len(),
    ensures
        mismatches(permuted(a, shifts), permuted(b, shifts)) == mismatches(a, b),
{
    assert(xor_bits(permuted(a, shifts), permuted(b, shifts)) =~= permuted(
        xor_bits(a, b),
        shifts,
    ));
    lemma_count_permuted(xor_bits(a, b), shifts);
}

} // verus!
