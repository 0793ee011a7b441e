//! The mathematics that the architectures' contracts are written in: bit sequences, rotations
//! and sign sequences.

use vstd::prelude::*;

verus! {

/// The bit of `s` at position `i`; every position outside `s` reads as `false`.
pub open spec fn bit_at(s: Seq<bool>, i: int) -> bool {
    0 <= i < s.len() && s[i]
}

/// `a` with each bit combined by exclusive or with the bit of `b` at the same position, `b`
/// being extended with `false` where it is the shorter of the two.
pub open spec fn xor_bits(a: Seq<bool>, b: Seq<bool>) -> Seq<bool> {
    Seq::new(a.len(), |i: int| a[i] != bit_at(b, i))
}

/// `a` with each bit combined by conjunction with the bit of `b` at the same position.
pub open spec fn and_bits(a: Seq<bool>, b: Seq<bool>) -> Seq<bool> {
    Seq::new(a.len(), |i: int| a[i] && bit_at(b, i))
}

/// `a` with each bit combined by disjunction with the bit of `b` at the same position.
pub open spec fn or_bits(a: Seq<bool>, b: Seq<bool>) -> Seq<bool> {
    Seq::new(a.len(), |i: int| a[i] || bit_at(b, i))
}

/// `a` with each bit inverted.
pub open spec fn not_bits(a: Seq<bool>) -> Seq<bool> {
    Seq::new(a.len(), |i: int| !a[i])
}

/// `a` with each bit replaced by whether it equals the bit of `b` at the same position.
pub open spec fn xnor_bits(a: Seq<bool>, b: Seq<bool>) -> Seq<bool> {
    Seq::new(a.len(), |i: int| a[i] == bit_at(b, i))
}

/// The number of bits of `s` that are set.
pub open spec fn count_true(s: Seq<bool>) -> nat
    decreases s.len(),
{
    if s.len() == 0 {
        0
    } else {
        count_true(s.drop_last()) + (if s.last() {
            1nat
        } else {
            0nat
        })
    }
}

/// The number of positions of `a` at which `b` holds another bit.
pub open spec fn mismatches(a: Seq<bool>, b: Seq<bool>) -> nat {
    count_true(xor_bits(a, b))
}

/// The vote of `a` and `b` at each position: their common bit where they agree, the bit of
/// `tiebreaker` where they do not.
pub open spec fn majority(a: Seq<bool>, b: Seq<bool>, tiebreaker: Seq<bool>) -> Seq<bool> {
    Seq::new(
        a.len(),
        |i: int|
            if a[i] == bit_at(b, i) {
                a[i]
            } else {
                bit_at(tiebreaker, i)
            },
    )
}

/// `s` with its last `by` elements moved to the front.
pub open spec fn rotated_right<T>(s: Seq<T>, by: int) -> Seq<T>
    recommends
        0 <= by <= s.len(),
{
    s.subrange(s.len() - by, s.len() as int) + s.subrange(0, s.len() - by)
}

/// `s` with its elements moved `shifts` places towards the end, those that pass the end coming
/// in at the front.
pub open spec fn permuted<T>(s: Seq<T>, shifts: nat) -> Seq<T> {
    if s.len() == 0 {
        s
    } else {
        rotated_right(s, (shifts % s.len()) as int)
    }
}

/// `s` with its first element in place and the others in the opposite order: what stood at `i`
/// stands at `len - i`.
pub open spec fn reflected<T>(s: Seq<T>) -> Seq<T> {
    Seq::new(
        s.len(),
        |i: int|
            if i == 0 {
                s[0]
            } else {
                s[s.len() - i]
            },
    )
}

/// The sign that a bit stands for: +1 where it is set, -1 where it is not.
pub open spec fn sign(bit: bool) -> int {
    if bit {
        1
    } else {
        -1
    }
}

/// The signs that bits stand for.
pub open spec fn signs(bits: Seq<bool>) -> Seq<int> {
    Seq::new(bits.len(), |i: int| sign(bits[i]))
}

/// The integers of `a`, each with that of `b` at the same position added; past the end of `b`,
/// those of `a` as they are.
pub open spec fn sums(a: Seq<int>, b: Seq<int>) -> Seq<int> {
    Seq::new(
        a.len(),
        |i: int|
            if i < b.len() {
                a[i] + b[i]
            } else {
                a[i]
            },
    )
}

/// The integers of `a`, each times the sign that the bit of `b` at the same position stands for.
pub open spec fn sign_products(a: Seq<int>, b: Seq<bool>) -> Seq<int> {
    Seq::new(a.len(), |i: int| a[i] * sign(b[i]))
}

/// Whether each of the integers is no less than zero.
pub open spec fn signs_of(values: Seq<int>) -> Seq<bool> {
    Seq::new(values.len(), |i: int| values[i] >= 0)
}

/// The bit with number `i` of a packed sequence of bytes, the lowest bit of the first byte
/// being number zero.
pub open spec fn packed_bit(bytes: Seq<u8>, i: int) -> bool {
    (bytes[i / 8] >> ((i % 8) as u8)) & 1u8 == 1u8
}

/// The first `size` bits of a packed sequence of bytes.
pub open spec fn unpacked(bytes: Seq<u8>, size: nat) -> Seq<bool> {
    Seq::new(size, |i: int| packed_bit(bytes, i))
}

/// A sequence has no more set bits than bits.
pub proof fn lemma_count_bound(s: Seq<bool>)
    ensures
        count_true(s) <= s.len(),
    decreases s.len(),
{
    if s.len() > 0 {
        lemma_count_bound(s.drop_last());
    }
}

} // verus!
